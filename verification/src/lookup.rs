//! The finished lookup tables and the queries on them.
//!
//! [`MagicNumbers`] holds the outcome of the magic search for each square
//! and each sliding piece, an entry or the reason why there is none.
//! [`LookUp`] is built from a complete set of entries and adds the tables
//! of the king, the knight and the pawns. It is never changed after it is
//! built.

use vstd::prelude::*;
use vstd::arithmetic::power2::pow2;
use crate::bits::{popcount, subset_of};
use crate::errors::BuildError;
use crate::geometry::{
    bishop_attack_set,
    bishop_bits_of,
    bishop_mask_of,
    rook_attack_set,
    rook_bits_of,
    rook_mask_of,
};
use crate::leapers::{
    king_attack_set,
    king_attacks_from,
    knight_attack_set,
    knight_attacks_from,
    pawn_attack_set,
    pawn_attacks_from,
};
use crate::magic::{
    attack_set,
    find_magic_entry,
    found_by_search,
    lemma_entry_answers,
    mask_of,
    search_failure,
    succeeds,
    transform_of,
    MagicEntry,
    DEFAULT_ATTEMPTS,
};
use crate::pieces::Color;
use crate::sliders::{lemma_bishop_mask_size, lemma_rook_mask_size};

verus! {

/// The index width of the table of the piece on `square`.
pub open spec fn index_bits_of(is_bishop: bool, square: int) -> int {
    if is_bishop {
        bishop_bits_of(square)
    } else {
        rook_bits_of(square)
    }
}

/// The index width of the rook's table on `square`: as many bits as the
/// rook's mask holds squares.
pub fn rook_index_bits(square: u64) -> (bits: u64)
    requires
        square < 64,
    ensures
        bits == rook_bits_of(square as int),
        bits == popcount(rook_mask_of(square as int)),
        10 <= bits <= 12,
{
    proof {
        lemma_rook_mask_size(square as int);
    }
    let rank = square / 8;
    let file = square % 8;
    let mut bits: u64 = 10;
    if rank == 0 || rank == 7 {
        bits = bits + 1;
    }
    if file == 0 || file == 7 {
        bits = bits + 1;
    }
    bits
}

/// The index width of the bishop's table on `square`: as many bits as the
/// bishop's mask holds squares.
pub fn bishop_index_bits(square: u64) -> (bits: u64)
    requires
        square < 64,
    ensures
        bits == bishop_bits_of(square as int),
        bits == popcount(bishop_mask_of(square as int)),
        5 <= bits <= 9,
{
    proof {
        lemma_bishop_mask_size(square as int);
    }
    let rank = square / 8;
    let file = square % 8;
    let vertical = if rank < 7 - rank {
        rank
    } else {
        7 - rank
    };
    let lateral = if file < 7 - file {
        file
    } else {
        7 - file
    };
    let distance = if vertical < lateral {
        vertical
    } else {
        lateral
    };
    if vertical == 0 && lateral == 0 {
        6
    } else if distance <= 1 {
        5
    } else if distance == 2 {
        7
    } else {
        9
    }
}

/// The seed of the search on `square` in a build that is seeded with
/// `seed`: the seed with the bit of the square flipped.
pub open spec fn square_seed(seed: u64, square: u64) -> u64 {
    seed ^ (1u64 << square)
}

/// `slot` is what the search for the piece on `square` returns in a build
/// that is seeded with `seed` and gives each search `attempts` candidates.
pub open spec fn slot_searched(
    slot: Result<MagicEntry, BuildError>,
    is_bishop: bool,
    square: int,
    seed: u64,
    attempts: u64,
) -> bool {
    found_by_search(
        slot,
        is_bishop,
        square as u64,
        index_bits_of(is_bishop, square) as u64,
        square_seed(seed, square as u64),
        attempts,
    )
}

/// In a build that is seeded with `seed` and gives each search `attempts`
/// candidates, the bishop's and the rook's search on `square` both
/// succeed.
pub open spec fn square_succeeds(square: int, seed: u64, attempts: u64) -> bool {
    &&& succeeds(
        true,
        square,
        bishop_bits_of(square) as u64,
        square_seed(seed, square as u64),
        attempts,
    )
    &&& succeeds(
        false,
        square,
        rook_bits_of(square) as u64,
        square_seed(seed, square as u64),
        attempts,
    )
}

/// The searches of such a build succeed on every square.
pub open spec fn build_succeeds(seed: u64, attempts: u64) -> bool {
    forall|square: int| 0 <= square < 64 ==> #[trigger] square_succeeds(square, seed, attempts)
}

/// `square` is the lowest square on which a search of such a build fails.
pub open spec fn first_failing_square(square: int, seed: u64, attempts: u64) -> bool {
    &&& 0 <= square < 64
    &&& !square_succeeds(square, seed, attempts)
    &&& forall|lower: int| 0 <= lower < square ==> #[trigger] square_succeeds(lower, seed, attempts)
}

/// What the slot of a square may hold after a search: an entry that serves
/// the square with the square's index width, or the reason of the failure.
pub open spec fn slot_sound(
    slot: Result<MagicEntry, BuildError>,
    square: int,
    is_bishop: bool,
) -> bool {
    match slot {
        Ok(entry) => entry.serves(square, is_bishop) && entry.index_bits == index_bits_of(
            is_bishop,
            square,
        ),
        Err(error) => error == search_failure(square as u64),
    }
}

/// The outcome of the magic search for every square: per square and
/// sliding piece an entry, or the error that the search ended with. One
/// square's failure leaves the other squares' entries usable.
pub struct MagicNumbers {
    bishop_magics: Vec<Result<MagicEntry, BuildError>>,
    rook_magics: Vec<Result<MagicEntry, BuildError>>,
}

impl MagicNumbers {
    /// The outcome of the rook's search on `square`.
    pub closed spec fn rook_slot(&self, square: int) -> Result<MagicEntry, BuildError> {
        self.rook_magics[square]
    }

    /// The outcome of the bishop's search on `square`.
    pub closed spec fn bishop_slot(&self, square: int) -> Result<MagicEntry, BuildError> {
        self.bishop_magics[square]
    }

    /// There is an outcome for each of the 64 squares.
    pub closed spec fn sized(&self) -> bool {
        self.rook_magics.len() == 64 && self.bishop_magics.len() == 64
    }

    /// Every square has a sound outcome for both pieces.
    pub open spec fn wf(&self) -> bool {
        &&& self.sized()
        &&& forall|square: int|
            0 <= square < 64 ==> slot_sound(#[trigger] self.rook_slot(square), square, false)
        &&& forall|square: int|
            0 <= square < 64 ==> slot_sound(#[trigger] self.bishop_slot(square), square, true)
    }

    /// The error of the square, if one of its two searches failed: the
    /// bishop's before the rook's.
    pub open spec fn failure_at(&self, square: int) -> Option<BuildError> {
        match self.bishop_slot(square) {
            Err(error) => Some(error),
            Ok(_) => match self.rook_slot(square) {
                Err(error) => Some(error),
                Ok(_) => None,
            },
        }
    }

    /// No search failed.
    pub open spec fn complete(&self) -> bool {
        forall|square: int| 0 <= square < 64 ==> #[trigger] self.failure_at(square) is None
    }

    /// `error` is the error of the lowest square that has one.
    pub open spec fn first_failure_is(&self, error: BuildError) -> bool {
        exists|square: int|
            0 <= square < 64 && #[trigger] self.failure_at(square) == Some(error) && forall|
                lower: int,
            |
                0 <= lower < square ==> #[trigger] self.failure_at(lower) is None
    }

    /// Every slot holds what the search of its square returns in a build
    /// that is seeded with `seed` and gives each search `attempts`
    /// candidates.
    pub open spec fn searched(&self, seed: u64, attempts: u64) -> bool {
        &&& forall|square: int|
            0 <= square < 64 ==> slot_searched(
                #[trigger] self.rook_slot(square),
                false,
                square,
                seed,
                attempts,
            )
        &&& forall|square: int|
            0 <= square < 64 ==> slot_searched(
                #[trigger] self.bishop_slot(square),
                true,
                square,
                seed,
                attempts,
            )
    }

    /// Searches every square with the default budget and the square's own
    /// seed: the searches of a build that is seeded with 0.
    pub fn init() -> (magics: MagicNumbers)
        ensures
            magics.wf(),
            magics.searched(0, DEFAULT_ATTEMPTS),
    {
        MagicNumbers::search(0, DEFAULT_ATTEMPTS)
    }

    /// Searches a magic for the bishop and for the rook on every square.
    /// The generator of a square is seeded with `square_seed(seed, square)`
    /// and each search checks at most `attempts` candidates. A search that
    /// fails does not stop the others: each slot holds what its own search
    /// returns.
    pub fn search(seed: u64, attempts: u64) -> (magics: MagicNumbers)
        ensures
            magics.wf(),
            magics.searched(seed, attempts),
            magics.complete() <==> build_succeeds(seed, attempts),
            attempts == 0 ==> !magics.complete(),
    {
        let mut bishop_magics: Vec<Result<MagicEntry, BuildError>> = Vec::new();
        let mut rook_magics: Vec<Result<MagicEntry, BuildError>> = Vec::new();
        let mut square: u64 = 0;
        while square < 64
            invariant
                square <= 64,
                bishop_magics.len() == square,
                rook_magics.len() == square,
                forall|s: int| 0 <= s < square ==> slot_sound(#[trigger] rook_magics[s], s, false),
                forall|s: int| 0 <= s < square ==> slot_sound(#[trigger] bishop_magics[s], s, true),
                forall|s: int|
                    0 <= s < square ==> slot_searched(
                        #[trigger] rook_magics[s],
                        false,
                        s,
                        seed,
                        attempts,
                    ),
                forall|s: int|
                    0 <= s < square ==> slot_searched(
                        #[trigger] bishop_magics[s],
                        true,
                        s,
                        seed,
                        attempts,
                    ),
            decreases 64 - square,
        {
            let square_seed = seed ^ (1u64 << square);
            let bishop = find_magic_entry(
                square,
                bishop_index_bits(square),
                true,
                square_seed,
                attempts,
            );
            let rook = find_magic_entry(
                square,
                rook_index_bits(square),
                false,
                square_seed,
                attempts,
            );
            bishop_magics.push(bishop);
            rook_magics.push(rook);
            square = square + 1;
        }
        let magics = MagicNumbers { bishop_magics, rook_magics };
        proof {
            magics.lemma_complete_where_all_succeed(seed, attempts);
            if attempts == 0 {
                assert(magics.rook_slot(0) is Err);
                assert(magics.failure_at(0) !is None);
            }
        }
        magics
    }

    /// A square has no failure exactly if both of its searches succeed, so
    /// the outcome is complete exactly if the build succeeds.
    pub proof fn lemma_complete_where_all_succeed(&self, seed: u64, attempts: u64)
        requires
            self.searched(seed, attempts),
        ensures
            forall|square: int|
                0 <= square < 64 ==> (#[trigger] self.failure_at(square) is None
                    <==> square_succeeds(square, seed, attempts)),
            self.complete() <==> build_succeeds(seed, attempts),
    {
        assert forall|square: int| 0 <= square < 64 implies (#[trigger] self.failure_at(square)
            is None <==> square_succeeds(square, seed, attempts)) by {
            assert(slot_searched(self.rook_slot(square), false, square, seed, attempts));
            assert(slot_searched(self.bishop_slot(square), true, square, seed, attempts));
        }
        if self.complete() {
            assert forall|square: int| 0 <= square < 64 implies #[trigger] square_succeeds(
                square,
                seed,
                attempts,
            ) by {
                assert(self.failure_at(square) is None);
            }
        }
        if build_succeeds(seed, attempts) {
            assert forall|square: int| 0 <= square < 64 implies #[trigger] self.failure_at(square)
                is None by {
                assert(square_succeeds(square, seed, attempts));
            }
        }
    }

    /// The outcome of the rook's search on `square`.
    pub fn rook_entry(&self, square: u64) -> (slot: &Result<MagicEntry, BuildError>)
        requires
            self.wf(),
            square < 64,
        ensures
            *slot == self.rook_slot(square as int),
    {
        &self.rook_magics[square as usize]
    }

    /// The outcome of the bishop's search on `square`.
    pub fn bishop_entry(&self, square: u64) -> (slot: &Result<MagicEntry, BuildError>)
        requires
            self.wf(),
            square < 64,
        ensures
            *slot == self.bishop_slot(square as int),
    {
        &self.bishop_magics[square as usize]
    }

    /// The rook's magic on `square`, or the error of its search.
    pub fn rook_magic(&self, square: u64) -> (magic: Result<u64, BuildError>)
        requires
            self.wf(),
            square < 64,
        ensures
            magic == match self.rook_slot(square as int) {
                Ok(entry) => Ok::<u64, BuildError>(entry.magic),
                Err(error) => Err::<u64, BuildError>(error),
            },
    {
        match &self.rook_magics[square as usize] {
            Ok(entry) => Ok(entry.magic),
            Err(error) => Err(*error),
        }
    }

    /// The bishop's magic on `square`, or the error of its search.
    pub fn bishop_magic(&self, square: u64) -> (magic: Result<u64, BuildError>)
        requires
            self.wf(),
            square < 64,
        ensures
            magic == match self.bishop_slot(square as int) {
                Ok(entry) => Ok::<u64, BuildError>(entry.magic),
                Err(error) => Err::<u64, BuildError>(error),
            },
    {
        match &self.bishop_magics[square as usize] {
            Ok(entry) => Ok(entry.magic),
            Err(error) => Err(*error),
        }
    }

    /// The error of the lowest square whose search failed, if any did.
    pub fn first_failure(&self) -> (failure: Option<BuildError>)
        requires
            self.wf(),
        ensures
            failure is None <==> self.complete(),
            failure matches Some(error) ==> self.first_failure_is(error),
    {
        let mut square: usize = 0;
        while square < 64
            invariant
                self.wf(),
                square <= 64,
                forall|s: int| 0 <= s < square ==> #[trigger] self.failure_at(s) is None,
            decreases 64 - square,
        {
            match &self.bishop_magics[square] {
                Err(error) => {
                    proof {
                        assert(self.failure_at(square as int) == Some(*error));
                    }
                    return Some(*error);
                },
                Ok(_) => {},
            }
            match &self.rook_magics[square] {
                Err(error) => {
                    proof {
                        assert(self.failure_at(square as int) == Some(*error));
                    }
                    return Some(*error);
                },
                Ok(_) => {},
            }
            proof {
                assert(self.failure_at(square as int) is None);
            }
            square = square + 1;
        }
        None
    }
}

/// The attack tables of every piece on every square.
pub struct LookUp {
    magics: MagicNumbers,
    king_attacks: Vec<u64>,
    knight_attacks: Vec<u64>,
    white_pawn_attacks: Vec<u64>,
    black_pawn_attacks: Vec<u64>,
}

impl LookUp {
    /// The magic entries that the tables were built from.
    pub closed spec fn magics_of(&self) -> MagicNumbers {
        self.magics
    }

    /// The rook's entry on `square`.
    pub closed spec fn rook_entry_of(&self, square: int) -> MagicEntry {
        self.magics.rook_slot(square)->Ok_0
    }

    /// The bishop's entry on `square`.
    pub closed spec fn bishop_entry_of(&self, square: int) -> MagicEntry {
        self.magics.bishop_slot(square)->Ok_0
    }

    /// The tables are complete and correct: every square has an entry that
    /// serves it for the rook and one for the bishop, and the tables of
    /// king, knight and pawns hold each square's attack set.
    pub closed spec fn wf(&self) -> bool {
        &&& self.magics.wf()
        &&& self.magics.complete()
        &&& self.king_attacks.len() == 64
        &&& self.knight_attacks.len() == 64
        &&& self.white_pawn_attacks.len() == 64
        &&& self.black_pawn_attacks.len() == 64
        &&& forall|s: int| 0 <= s < 64 ==> #[trigger] self.king_attacks[s] == king_attack_set(s)
        &&& forall|s: int|
            0 <= s < 64 ==> #[trigger] self.knight_attacks[s] == knight_attack_set(s)
        &&& forall|s: int|
            0 <= s < 64 ==> #[trigger] self.white_pawn_attacks[s] == pawn_attack_set(s, 1)
        &&& forall|s: int|
            0 <= s < 64 ==> #[trigger] self.black_pawn_attacks[s] == pawn_attack_set(s, -1)
    }

    /// In well-formed tables, the entry of every square serves the square
    /// with the square's index width: for every occupancy of the mask, the
    /// slot of the occupancy lies in the table and holds the true attack
    /// set.
    pub proof fn lemma_entries_serve(&self, square: int)
        requires
            self.wf(),
            0 <= square < 64,
        ensures
            self.rook_entry_of(square).serves(square, false),
            self.rook_entry_of(square).index_bits == rook_bits_of(square),
            self.bishop_entry_of(square).serves(square, true),
            self.bishop_entry_of(square).index_bits == bishop_bits_of(square),
    {
        assert(self.magics.failure_at(square) is None);
        assert(slot_sound(self.magics.rook_slot(square), square, false));
        assert(slot_sound(self.magics.bishop_slot(square), square, true));
    }

    /// The entry of the piece on `square`.
    pub open spec fn entry_of(&self, is_bishop: bool, square: int) -> MagicEntry {
        if is_bishop {
            self.bishop_entry_of(square)
        } else {
            self.rook_entry_of(square)
        }
    }

    /// The index width of a square is the number of squares of its mask.
    pub proof fn lemma_index_bits_count_the_mask(is_bishop: bool, square: int)
        requires
            0 <= square < 64,
        ensures
            index_bits_of(is_bishop, square) == popcount(mask_of(is_bishop, square)),
    {
        if is_bishop {
            lemma_bishop_mask_size(square);
        } else {
            lemma_rook_mask_size(square);
        }
    }

    /// In well-formed tables, every occupancy of a square's mask is sent to
    /// a slot below `2^bits`, with the square's index width for `bits`, and
    /// the square's table holds in that slot the squares that the piece
    /// attacks under the occupancy.
    pub proof fn lemma_slot_holds_attacks(&self, is_bishop: bool, square: int, occupancy: u64)
        requires
            self.wf(),
            0 <= square < 64,
            subset_of(occupancy, mask_of(is_bishop, square)),
        ensures
            self.entry_of(is_bishop, square).mask == mask_of(is_bishop, square),
            self.entry_of(is_bishop, square).index_bits == index_bits_of(is_bishop, square),
            self.entry_of(is_bishop, square).table.len() == pow2(
                index_bits_of(is_bishop, square) as nat,
            ),
            0 <= transform_of(
                occupancy,
                self.entry_of(is_bishop, square).magic,
                index_bits_of(is_bishop, square) as u64,
            ) < pow2(index_bits_of(is_bishop, square) as nat),
            self.entry_of(is_bishop, square).table[transform_of(
                occupancy,
                self.entry_of(is_bishop, square).magic,
                index_bits_of(is_bishop, square) as u64,
            ) as int] == attack_set(is_bishop, square, occupancy),
    {
        self.lemma_entries_serve(square);
    }

    /// In well-formed tables, the slot of any board occupancy holds the
    /// squares that the piece attacks on that board; the pieces outside the
    /// mask do not matter.
    pub proof fn lemma_any_board_is_answered(&self, is_bishop: bool, square: int, occupancy: u64)
        requires
            self.wf(),
            0 <= square < 64,
        ensures
            self.entry_of(is_bishop, square).table[self.entry_of(is_bishop, square).slot_of(
                occupancy,
            )] == attack_set(is_bishop, square, occupancy & mask_of(is_bishop, square)),
            attack_set(is_bishop, square, occupancy & mask_of(is_bishop, square)) == attack_set(
                is_bishop,
                square,
                occupancy,
            ),
    {
        self.lemma_entries_serve(square);
        lemma_entry_answers(self.entry_of(is_bishop, square), square, is_bishop, occupancy);
    }

    /// Completes a set of magic entries to lookup tables, or returns the
    /// error of the lowest square that has no entry.
    pub fn from_magics(magics: MagicNumbers) -> (built: Result<LookUp, BuildError>)
        requires
            magics.wf(),
        ensures
            built is Ok <==> magics.complete(),
            built matches Ok(lookup) ==> lookup.magics_of() == magics,
            built matches Ok(lookup) ==> lookup.wf() && forall|square: int|
                0 <= square < 64 ==> magics.rook_slot(square) == Ok::<MagicEntry, BuildError>(
                    #[trigger] lookup.rook_entry_of(square),
                ) && magics.bishop_slot(square) == Ok::<MagicEntry, BuildError>(
                    lookup.bishop_entry_of(square),
                ),
            built matches Err(error) ==> magics.first_failure_is(error),
    {
        match magics.first_failure() {
            Some(error) => {
                return Err(error);
            },
            None => {},
        }
        let mut king_attacks: Vec<u64> = Vec::new();
        let mut knight_attacks: Vec<u64> = Vec::new();
        let mut white_pawn_attacks: Vec<u64> = Vec::new();
        let mut black_pawn_attacks: Vec<u64> = Vec::new();
        let mut square: u64 = 0;
        while square < 64
            invariant
                square <= 64,
                king_attacks.len() == square,
                knight_attacks.len() == square,
                white_pawn_attacks.len() == square,
                black_pawn_attacks.len() == square,
                forall|s: int| 0 <= s < square ==> #[trigger] king_attacks[s] == king_attack_set(s),
                forall|s: int|
                    0 <= s < square ==> #[trigger] knight_attacks[s] == knight_attack_set(s),
                forall|s: int|
                    0 <= s < square ==> #[trigger] white_pawn_attacks[s] == pawn_attack_set(s, 1),
                forall|s: int|
                    0 <= s < square ==> #[trigger] black_pawn_attacks[s] == pawn_attack_set(s, -1),
            decreases 64 - square,
        {
            king_attacks.push(king_attacks_from(square));
            knight_attacks.push(knight_attacks_from(square));
            white_pawn_attacks.push(pawn_attacks_from(true, square));
            black_pawn_attacks.push(pawn_attacks_from(false, square));
            square = square + 1;
        }
        let lookup = LookUp {
            magics,
            king_attacks,
            knight_attacks,
            white_pawn_attacks,
            black_pawn_attacks,
        };
        proof {
            assert forall|square: int| 0 <= square < 64 implies magics.rook_slot(square) == Ok::<
                MagicEntry,
                BuildError,
            >(#[trigger] lookup.rook_entry_of(square)) && magics.bishop_slot(square) == Ok::<
                MagicEntry,
                BuildError,
            >(lookup.bishop_entry_of(square)) by {
                assert(magics.failure_at(square) is None);
            }
        }
        Ok(lookup)
    }

    /// Builds the tables with the default budget and each square's own
    /// seed.
    pub fn init() -> (built: Result<LookUp, BuildError>)
        ensures
            built is Ok <==> build_succeeds(0, DEFAULT_ATTEMPTS),
            built matches Ok(lookup) ==> lookup.wf() && lookup.magics_of().searched(
                0,
                DEFAULT_ATTEMPTS,
            ),
            built matches Err(error) ==> exists|square: int|
                #[trigger] first_failing_square(square, 0, DEFAULT_ATTEMPTS) && error == (
                BuildError::MagicSearchExhausted { square: square as u64 }),
    {
        build_lookup(0, DEFAULT_ATTEMPTS)
    }

    /// The squares that a rook on `square` attacks on a board whose pieces
    /// stand on `occupancy`.
    pub fn query_rook_attacks(&self, square: u64, occupancy: u64) -> (attacks: u64)
        requires
            self.wf(),
            square < 64,
        ensures
            attacks == rook_attack_set(square as int, occupancy),
            attacks == self.rook_entry_of(square as int).table[self.rook_entry_of(
                square as int,
            ).slot_of(occupancy)],
    {
        proof {
            self.lemma_entries_serve(square as int);
            assert(self.magics.failure_at(square as int) is None);
            lemma_entry_answers(self.rook_entry_of(square as int), square as int, false, occupancy);
        }
        match self.magics.rook_entry(square) {
            Ok(entry) => entry.attacks(occupancy),
            Err(_) => 0,
        }
    }

    /// The squares that a bishop on `square` attacks on a board whose
    /// pieces stand on `occupancy`.
    pub fn query_bishop_attacks(&self, square: u64, occupancy: u64) -> (attacks: u64)
        requires
            self.wf(),
            square < 64,
        ensures
            attacks == bishop_attack_set(square as int, occupancy),
            attacks == self.bishop_entry_of(square as int).table[self.bishop_entry_of(
                square as int,
            ).slot_of(occupancy)],
    {
        proof {
            self.lemma_entries_serve(square as int);
            assert(self.magics.failure_at(square as int) is None);
            lemma_entry_answers(
                self.bishop_entry_of(square as int),
                square as int,
                true,
                occupancy,
            );
        }
        match self.magics.bishop_entry(square) {
            Ok(entry) => entry.attacks(occupancy),
            Err(_) => 0,
        }
    }

    /// The squares that a king on `square` attacks.
    pub fn query_king_attacks(&self, square: u64) -> (attacks: u64)
        requires
            self.wf(),
            square < 64,
        ensures
            attacks == king_attack_set(square as int),
    {
        self.king_attacks[square as usize]
    }

    /// The squares that a knight on `square` attacks.
    pub fn query_knight_attacks(&self, square: u64) -> (attacks: u64)
        requires
            self.wf(),
            square < 64,
        ensures
            attacks == knight_attack_set(square as int),
    {
        self.knight_attacks[square as usize]
    }

    /// The squares on which a pawn of `color` on `square` captures.
    pub fn query_pawn_attacks(&self, color: Color, square: u64) -> (attacks: u64)
        requires
            self.wf(),
            square < 64,
        ensures
            attacks == pawn_attack_set(square as int, color.forward()),
    {
        match color {
            Color::White => self.white_pawn_attacks[square as usize],
            Color::Black => self.black_pawn_attacks[square as usize],
        }
    }

    /// The magic entries that the tables were built from.
    pub fn magics(&self) -> (magics: &MagicNumbers)
        requires
            self.wf(),
        ensures
            *magics == self.magics_of(),
            magics.wf(),
            magics.complete(),
            forall|square: int|
                0 <= square < 64 ==> #[trigger] magics.rook_slot(square) == Ok::<
                    MagicEntry,
                    BuildError,
                >(self.rook_entry_of(square)),
            forall|square: int|
                0 <= square < 64 ==> #[trigger] magics.bishop_slot(square) == Ok::<
                    MagicEntry,
                    BuildError,
                >(self.bishop_entry_of(square)),
    {
        proof {
            assert forall|square: int| 0 <= square < 64 implies #[trigger] self.magics.rook_slot(
                square,
            ) == Ok::<MagicEntry, BuildError>(self.rook_entry_of(square)) by {
                assert(self.magics.failure_at(square) is None);
            }
            assert forall|square: int| 0 <= square < 64 implies #[trigger] self.magics.bishop_slot(
                square,
            ) == Ok::<MagicEntry, BuildError>(self.bishop_entry_of(square)) by {
                assert(self.magics.failure_at(square) is None);
            }
        }
        &self.magics
    }
}

/// Builds the lookup tables. The magic search of a square is seeded with
/// `square_seed(seed, square)` and checks at most `attempts` candidates.
/// The build succeeds exactly if the bishop's and the rook's search succeed
/// on every square; if not, the error names the lowest square on which one
/// of them fails.
pub fn build_lookup(seed: u64, attempts: u64) -> (built: Result<LookUp, BuildError>)
    ensures
        built is Ok <==> build_succeeds(seed, attempts),
        built matches Ok(lookup) ==> lookup.wf() && lookup.magics_of().searched(seed, attempts),
        built matches Err(error) ==> exists|square: int|
            #[trigger] first_failing_square(square, seed, attempts) && error == (
            BuildError::MagicSearchExhausted { square: square as u64 }),
        attempts == 0 ==> built is Err,
{
    let magics = MagicNumbers::search(seed, attempts);
    let built = LookUp::from_magics(magics);
    proof {
        magics.lemma_complete_where_all_succeed(seed, attempts);
        if let Err(error) = built {
            let square = choose|square: int|
                0 <= square < 64 && #[trigger] magics.failure_at(square) == Some(error) && forall|
                    lower: int,
                |
                    0 <= lower < square ==> #[trigger] magics.failure_at(lower) is None;
            assert(slot_sound(magics.rook_slot(square), square, false));
            assert(slot_sound(magics.bishop_slot(square), square, true));
            assert(error == (BuildError::MagicSearchExhausted { square: square as u64 }));
            assert forall|lower: int| 0 <= lower < square implies #[trigger] square_succeeds(
                lower,
                seed,
                attempts,
            ) by {
                assert(magics.failure_at(lower) is None);
            }
            assert(first_failing_square(square, seed, attempts));
        }
    }
    built
}

} // verus!
