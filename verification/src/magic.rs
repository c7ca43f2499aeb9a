//! The search for magic numbers: for each square, a multiplier that hashes
//! every set of blockers on the slider's relevant squares to an index at
//! which the attacks for that set can be stored, without clashes.
use vstd::prelude::*;
use crate::attacks::{
    attacks_along, bishop_attacks, bishop_dirs, calculate_attacks, rook_attacks, rook_dirs,
    valid_direction, moving, on_board, ray, BISHOP_DIRS, ROOK_DIRS,
};
use crate::bits::{bit, bits_of, in_bb, is_square, square_bits};
use crate::consts::{CA, CH, R1, R8};
use crate::enumeration::{is_subset, lemma_blocker_list_complete, square_count};

verus! {

/// The smallest number of index bits tried.
pub const SHIFT_START: usize = 13;

/// The length of the array a magic hashes into.
pub const MAX_ARR_SIZE: usize = 8192;

/// A magic for one square: `array[(blockers * magic) >> shift]` holds the
/// attacks for `blockers`.
pub struct Magic {
    pub magic: u64,
    pub mask: u64,
    pub shift: usize,
    pub array: Vec<Option<u64>>,
}

/// A magic as plain values.
pub struct MagicView {
    pub magic: u64,
    pub mask: u64,
    pub shift: usize,
    pub array: Seq<Option<u64>>,
}

impl View for Magic {
    type V = MagicView;

    open spec fn view(&self) -> MagicView {
        MagicView { magic: self.magic, mask: self.mask, shift: self.shift, array: self.array@ }
    }
}

/// The index that `magic` and `shift` give the blockers `b`.
pub open spec fn magic_index(b: u64, magic: u64, shift: usize) -> int {
    (b.wrapping_mul(magic) >> (shift as u64)) as int
}

/// Every entry of `table` hashes below the array's length.
pub open spec fn indices_fit(table: Seq<(u64, u64)>, magic: u64, shift: usize) -> bool {
    forall|i: int| 0 <= i < table.len() ==> #[trigger] magic_index(table[i].0, magic, shift) < 8192
}

/// Entries whose blockers hash alike have the same attacks.
pub open spec fn magic_consistent(table: Seq<(u64, u64)>, magic: u64, shift: usize) -> bool {
    forall|i: int, j: int|
        0 <= i < table.len() && 0 <= j < table.len() && #[trigger] magic_index(table[i].0, magic, shift)
            == #[trigger] magic_index(table[j].0, magic, shift) ==> table[i].1 == table[j].1
}

/// `arr` is the array of a consistent magic for `table`: each entry's attacks
/// stand at its index, and no other index holds anything.
pub open spec fn magic_array(arr: Seq<Option<u64>>, table: Seq<(u64, u64)>, magic: u64, shift: usize) -> bool {
    &&& arr.len() == 8192
    &&& forall|i: int|
        0 <= i < table.len() ==> arr[#[trigger] magic_index(table[i].0, magic, shift)] == Some(
            table[i].1,
        )
    &&& forall|h: int|
        0 <= h < 8192 && (#[trigger] arr[h]) is Some ==> exists|i: int|
            0 <= i < table.len() && #[trigger] magic_index(table[i].0, magic, shift) == h
}

/// The blocker sets of one square, each with the attacks it leaves, for both
/// kinds of slider, indexed by square.
pub struct BlockerTables {
    pub bishop: Vec<Vec<(u64, u64)>>,
    pub rook: Vec<Vec<(u64, u64)>>,
}

impl BlockerTables {
    pub open spec fn table(&self, square: int, is_rook: bool) -> Seq<(u64, u64)> {
        if is_rook {
            self.rook@[square]@
        } else {
            self.bishop@[square]@
        }
    }

    /// One blocker list for every square.
    pub open spec fn wf(&self) -> bool {
        self.bishop@.len() == 64 && self.rook@.len() == 64
    }

    /// The list of each square and slider has `2^n` entries, `n` being the
    /// number of relevant squares, and its `i`-th entry is the `(i + 1)`-th
    /// subset of the enumeration with the slider's attacks for it.
    pub open spec fn lists_all(&self) -> bool {
        &&& forall|sq: int|
            0 <= sq < 64 ==> #[trigger] self.bishop@[sq]@.len() == (1u64 << (bits_of(
                bishop_relevancy_of(sq),
            ).len() as u64))
        &&& forall|sq: int|
            0 <= sq < 64 ==> #[trigger] self.rook@[sq]@.len() == (1u64 << (bits_of(
                rook_relevancy_of(sq),
            ).len() as u64))
        &&& forall|sq: int, i: int|
            0 <= sq < 64 && 0 <= i < self.bishop@[sq]@.len() ==> #[trigger] self.bishop@[sq]@[i] == (
                subset_at(bishop_relevancy_of(sq), (i + 1) as nat),
                bishop_attacks(sq, subset_at(bishop_relevancy_of(sq), (i + 1) as nat)),
            )
        &&& forall|sq: int, i: int|
            0 <= sq < 64 && 0 <= i < self.rook@[sq]@.len() ==> #[trigger] self.rook@[sq]@[i] == (
                subset_at(rook_relevancy_of(sq), (i + 1) as nat),
                rook_attacks(sq, subset_at(rook_relevancy_of(sq), (i + 1) as nat)),
            )
    }
}


/// The relevant squares of a bishop on `sq`: those it reaches on an empty
/// board, less the board's edges.
pub open spec fn bishop_relevancy_of(sq: int) -> u64 {
    bishop_attacks(sq, 0) & !(R1 | R8 | CA | CH)
}

/// The edges among the first `n` of rank 1, rank 8, file a and file h that do
/// not hold `sq`, together.
pub open spec fn far_edges(sq: int, n: int) -> u64
    decreases n,
{
    if n <= 0 {
        0
    } else {
        let e = seq![R1, R8, CA, CH][n - 1];
        if bit(sq) & e == 0 {
            far_edges(sq, n - 1) | e
        } else {
            far_edges(sq, n - 1)
        }
    }
}

/// The relevant squares of a rook on `sq`: those it reaches on an empty board,
/// less the edges the rook does not stand on.
pub open spec fn rook_relevancy_of(sq: int) -> u64 {
    rook_attacks(sq, 0) & !far_edges(sq, 4)
}

/// The board's edges, square by square.
proof fn lemma_edges(q: int)
    requires
        is_square(q),
    ensures
        in_bb(R1, q) == (q / 8 == 0),
        in_bb(R8, q) == (q / 8 == 7),
        in_bb(CA, q) == (q % 8 == 0),
        in_bb(CH, q) == (q % 8 == 7),
{
    let t = q as u64;
    assert(((0xffu64 >> t) & 1u64 == 1u64) == (t / 8 == 0) && ((0xff00000000000000u64 >> t) & 1u64
        == 1u64) == (t / 8 == 7) && ((0x101010101010101u64 >> t) & 1u64 == 1u64) == (t % 8 == 0) && ((
    0x8080808080808080u64 >> t) & 1u64 == 1u64) == (t % 8 == 7)) by (bit_vector)
        requires
            t < 64,
    ;
}

/// The far edges of `sq`, square by square: the squares of an edge that does
/// not hold `sq`.
proof fn lemma_far_edges(sq: int, q: int)
    requires
        is_square(sq),
        is_square(q),
    ensures
        in_bb(far_edges(sq, 4), q) == ((q / 8 == 0 && sq / 8 != 0) || (q / 8 == 7 && sq / 8 != 7) || (q
            % 8 == 0 && sq % 8 != 0) || (q % 8 == 7 && sq % 8 != 7)),
{
    reveal_with_fuel(far_edges, 5);
    crate::bits::lemma_has_ops();
    lemma_edges(q);
    lemma_edges(sq);
    crate::bits::lemma_and_bit(R1, sq as u64);
    crate::bits::lemma_and_bit(R8, sq as u64);
    crate::bits::lemma_and_bit(CA, sq as u64);
    crate::bits::lemma_and_bit(CH, sq as u64);
}

/// A square of a slider's ray from `sq` that is not the ray's last square on
/// the board lies strictly inside the board along each coordinate the
/// direction moves in, and on the slider's line along the other.
proof fn lemma_inner_ray_square(sq: int, dr: int, df: int, q: int)
    requires
        is_square(sq),
        is_square(q),
        -1 <= dr <= 1,
        -1 <= df <= 1,
        !(dr == 0 && df == 0),
        in_bb(ray(sq / 8, sq % 8, dr, df, 0), q),
        on_board(q / 8 + dr, q % 8 + df),
    ensures
        dr != 0 ==> 1 <= q / 8 <= 6,
        df != 0 ==> 1 <= q % 8 <= 6,
        dr == 0 ==> q / 8 == sq / 8,
        df == 0 ==> q % 8 == sq % 8,
{
    crate::attacks::lemma_ray_ahead(sq / 8, sq % 8, dr, df, 0, q);
}

/// Slider attacks depend only on the blockers inside the relevancy mask: for
/// any occupancy, a bishop or rook on `sq` attacks the same squares as with
/// the occupancy cut down to its mask.
pub proof fn lemma_relevant_blockers_decide(sq: int, occ: u64)
    requires
        is_square(sq),
    ensures
        bishop_attacks(sq, occ) == bishop_attacks(sq, occ & bishop_relevancy_of(sq)),
        rook_attacks(sq, occ) == rook_attacks(sq, occ & rook_relevancy_of(sq)),
{
    crate::bits::lemma_has_ops();
    let bm = bishop_relevancy_of(sq);
    let rm = rook_relevancy_of(sq);
    assert forall|i: int| 0 <= i < 4 implies #[trigger] ray(
        sq / 8,
        sq % 8,
        bishop_dirs()[i].0 as int,
        bishop_dirs()[i].1 as int,
        occ,
    ) == ray(sq / 8, sq % 8, bishop_dirs()[i].0 as int, bishop_dirs()[i].1 as int, occ & bm) by {
        let dr = bishop_dirs()[i].0 as int;
        let df = bishop_dirs()[i].1 as int;
        assert((dr == 1 || dr == -1) && (df == 1 || df == -1));
        assert forall|q: int|
            is_square(q) && #[trigger] in_bb(ray(sq / 8, sq % 8, dr, df, 0), q) && on_board(
                q / 8 + dr,
                q % 8 + df,
            ) implies in_bb(occ, q) == in_bb(occ & bm, q) by {
            lemma_inner_ray_square(sq, dr, df, q);
            crate::attacks::lemma_attacks_hold_ray(sq, 0, bishop_dirs(), 4, i, q);
            lemma_edges(q);
        }
        crate::attacks::lemma_ray_agree(sq / 8, sq % 8, dr, df, occ, occ & bm);
    }
    crate::attacks::lemma_attacks_same_rays(sq, occ, occ & bm, bishop_dirs(), 4);
    assert forall|i: int| 0 <= i < 4 implies #[trigger] ray(
        sq / 8,
        sq % 8,
        rook_dirs()[i].0 as int,
        rook_dirs()[i].1 as int,
        occ,
    ) == ray(sq / 8, sq % 8, rook_dirs()[i].0 as int, rook_dirs()[i].1 as int, occ & rm) by {
        let dr = rook_dirs()[i].0 as int;
        let df = rook_dirs()[i].1 as int;
        assert((dr == 0 && (df == 1 || df == -1)) || (df == 0 && (dr == 1 || dr == -1)));
        assert forall|q: int|
            is_square(q) && #[trigger] in_bb(ray(sq / 8, sq % 8, dr, df, 0), q) && on_board(
                q / 8 + dr,
                q % 8 + df,
            ) implies in_bb(occ, q) == in_bb(occ & rm, q) by {
            lemma_inner_ray_square(sq, dr, df, q);
            crate::attacks::lemma_attacks_hold_ray(sq, 0, rook_dirs(), 4, i, q);
            lemma_far_edges(sq, q);
        }
        crate::attacks::lemma_ray_agree(sq / 8, sq % 8, dr, df, occ, occ & rm);
    }
    crate::attacks::lemma_attacks_same_rays(sq, occ, occ & rm, rook_dirs(), 4);
}

/// The squares whose occupancy matters to a bishop on `sq`.
pub fn bishop_relevancy(sq: usize) -> (r: u64)
    requires
        sq < 64,
    ensures
        r == bishop_relevancy_of(sq as int),
{
    proof {
        assert(BISHOP_DIRS@ =~= bishop_dirs());
    }
    calculate_attacks(sq, 0, &BISHOP_DIRS) & !(R1 | R8 | CA | CH)
}

/// The squares whose occupancy matters to a rook on `sq`.
pub fn rook_relevancy(sq: usize) -> (r: u64)
    requires
        sq < 64,
    ensures
        r == rook_relevancy_of(sq as int),
{
    proof {
        assert(ROOK_DIRS@ =~= rook_dirs());
    }
    let moves = calculate_attacks(sq, 0, &ROOK_DIRS);
    let edges: [u64; 4] = [R1, R8, CA, CH];
    let mut far: u64 = 0;
    for i in 0..4
        invariant
            sq < 64,
            edges@ == seq![R1, R8, CA, CH],
            far == far_edges(sq as int, i as int),
    {
        if (1u64 << (sq as u64)) & edges[i] == 0 {
            far = far | edges[i];
        }
    }
    moves & !far
}

/// The `k`-th set of blockers in the enumeration of the subsets of `rel` by
/// `b = (b - 1) & rel`, starting from `rel` itself.
pub open spec fn subset_at(rel: u64, k: nat) -> u64
    decreases k,
{
    if k == 0 {
        rel
    } else {
        subset_at(rel, (k - 1) as nat).wrapping_sub(1) & rel
    }
}

/// Every set of blockers the enumeration visits is a subset of `rel`.
pub proof fn lemma_subset_at_within(rel: u64, k: nat)
    ensures
        subset_at(rel, k) & !rel == 0,
{
    if k == 0 {
        assert(rel & !rel == 0) by (bit_vector);
    } else {
        let x = subset_at(rel, (k - 1) as nat).wrapping_sub(1);
        assert((x & rel) & !rel == 0) by (bit_vector);
    }
}

/// Every subset of `relevancy`, in the order `b = (b - 1) & relevancy` visits
/// them from `relevancy` on, each with the attacks a slider on `square` along
/// `directions` has when those squares are blocked.
pub fn blocker_attacks(square: usize, relevancy: u64, directions: &[(i32, i32)]) -> (r: Vec<(u64, u64)>)
    requires
        square < 64,
        bits_of(relevancy).len() < 64,
        forall|i: int| 0 <= i < directions@.len() ==> valid_direction(#[trigger] directions@[i]) && moving(directions@[i]),
    ensures
        r@.len() == (1u64 << (bits_of(relevancy).len() as u64)),
        forall|i: int|
            0 <= i < r@.len() ==> #[trigger] r@[i] == (
                subset_at(relevancy, (i + 1) as nat),
                attacks_along(
                    square as int,
                    subset_at(relevancy, (i + 1) as nat),
                    directions@,
                    directions@.len() as int,
                ),
            ),
{
    let count = square_bits(relevancy).len() as u64;
    let total: u64 = 1u64 << count;
    let mut out: Vec<(u64, u64)> = Vec::new();
    let mut blockers = relevancy;
    let mut k: u64 = 0;
    while k < total
        invariant
            square < 64,
            forall|i: int| 0 <= i < directions@.len() ==> valid_direction(#[trigger] directions@[i]) && moving(directions@[i]),
            k <= total,
            out@.len() == k,
            blockers == subset_at(relevancy, k as nat),
            forall|i: int|
                0 <= i < out@.len() ==> #[trigger] out@[i] == (
                    subset_at(relevancy, (i + 1) as nat),
                    attacks_along(
                        square as int,
                        subset_at(relevancy, (i + 1) as nat),
                        directions@,
                        directions@.len() as int,
                    ),
                ),
        decreases total - k,
    {
        blockers = blockers.wrapping_sub(1) & relevancy;
        let attacks = calculate_attacks(square, blockers, directions);
        out.push((blockers, attacks));
        k = k + 1;
    }
    out
}

impl BlockerTables {
    /// The blocker lists of every square, for bishops and rooks.
    pub fn new() -> (r: Self)
        ensures
            r.wf(),
            r.lists_all(),
    {
        let mut bishop: Vec<Vec<(u64, u64)>> = Vec::new();
        let mut rook: Vec<Vec<(u64, u64)>> = Vec::new();
        proof {
            assert(BISHOP_DIRS@ =~= bishop_dirs());
            assert(ROOK_DIRS@ =~= rook_dirs());
        }
        for sq in 0..64
            invariant
                bishop@.len() == sq,
                rook@.len() == sq,
                BISHOP_DIRS@ == bishop_dirs(),
                ROOK_DIRS@ == rook_dirs(),
                forall|s: int|
                    0 <= s < sq ==> #[trigger] bishop@[s]@.len() == (1u64 << (bits_of(
                        bishop_relevancy_of(s),
                    ).len() as u64)),
                forall|s: int|
                    0 <= s < sq ==> #[trigger] rook@[s]@.len() == (1u64 << (bits_of(
                        rook_relevancy_of(s),
                    ).len() as u64)),
                forall|s: int, i: int|
                    0 <= s < sq && 0 <= i < bishop@[s]@.len() ==> #[trigger] bishop@[s]@[i] == (
                        subset_at(bishop_relevancy_of(s), (i + 1) as nat),
                        bishop_attacks(s, subset_at(bishop_relevancy_of(s), (i + 1) as nat)),
                    ),
                forall|s: int, i: int|
                    0 <= s < sq && 0 <= i < rook@[s]@.len() ==> #[trigger] rook@[s]@[i] == (
                        subset_at(rook_relevancy_of(s), (i + 1) as nat),
                        rook_attacks(s, subset_at(rook_relevancy_of(s), (i + 1) as nat)),
                    ),
        {
            let b_rel = bishop_relevancy(sq);
            let r_rel = rook_relevancy(sq);
            proof {
                crate::bits::lemma_has_ops();
                crate::attacks::lemma_attacks_miss_origin(sq as int, 0, bishop_dirs(), 4);
                crate::attacks::lemma_attacks_miss_origin(sq as int, 0, rook_dirs(), 4);
                assert(!in_bb(b_rel, sq as int));
                assert(!in_bb(r_rel, sq as int));
                crate::bits::lemma_bits_upto_len(b_rel, 64, sq as int);
                crate::bits::lemma_bits_upto_len(r_rel, 64, sq as int);
            }
            let b_table = blocker_attacks(sq, b_rel, &BISHOP_DIRS);
            let r_table = blocker_attacks(sq, r_rel, &ROOK_DIRS);
            let ghost old_bishop = bishop@;
            let ghost old_rook = rook@;
            bishop.push(b_table);
            rook.push(r_table);
            proof {
                assert forall|s: int| 0 <= s < sq + 1 implies #[trigger] bishop@[s]@.len() == (1u64
                    << (bits_of(bishop_relevancy_of(s)).len() as u64)) by {
                    if s < sq {
                        assert(old_bishop[s] == bishop@[s]);
                    }
                }
                assert forall|s: int| 0 <= s < sq + 1 implies #[trigger] rook@[s]@.len() == (1u64
                    << (bits_of(rook_relevancy_of(s)).len() as u64)) by {
                    if s < sq {
                        assert(old_rook[s] == rook@[s]);
                    }
                }
            }
        }
        BlockerTables { bishop, rook }
    }
}

/// Tries `magic` with `shift` on the blocker list of `square`: the filled
/// array when no two blocker sets that hash alike leave different attacks,
/// `None` otherwise.
pub fn check_magic(
    magic: u64,
    square: usize,
    shift: usize,
    is_rook: bool,
    tables: &BlockerTables,
) -> (r: Option<Vec<Option<u64>>>)
    requires
        tables.wf(),
        square < 64,
        shift < 64,
        indices_fit(tables.table(square as int, is_rook), magic, shift),
    ensures
        r is Some <==> magic_consistent(tables.table(square as int, is_rook), magic, shift),
        r matches Some(arr) ==> magic_array(arr@, tables.table(square as int, is_rook), magic, shift),
{
    let blocker_attacks = if is_rook {
        &tables.rook[square]
    } else {
        &tables.bishop[square]
    };
    let ghost table = blocker_attacks@;
    let mut array: Vec<Option<u64>> = Vec::new();
    for _k in 0..MAX_ARR_SIZE
        invariant
            array@.len() == _k,
            forall|h: int| 0 <= h < array@.len() ==> #[trigger] array@[h] is None,
    {
        array.push(None);
    }
    for k in 0..blocker_attacks.len()
        invariant
            table == blocker_attacks@,
            table == tables.table(square as int, is_rook),
            indices_fit(table, magic, shift),
            shift < 64,
            array@.len() == 8192,
            magic_consistent(table.subrange(0, k as int), magic, shift),
            forall|i: int|
                0 <= i < k ==> array@[#[trigger] magic_index(table[i].0, magic, shift)] == Some(
                    table[i].1,
                ),
            forall|h: int|
                0 <= h < 8192 && (#[trigger] array@[h]) is Some ==> exists|i: int|
                    0 <= i < k && #[trigger] magic_index(table[i].0, magic, shift) == h,
    {
        let (blocker, attack) = blocker_attacks[k];
        let hash = (blocker.wrapping_mul(magic) >> (shift as u64)) as usize;
        proof {
            assert(magic_index(table[k as int].0, magic, shift) < 8192);
        }
        let ghost prefix = table.subrange(0, k as int);
        let ghost next = table.subrange(0, k + 1);
        assert(next =~= prefix.push((blocker, attack)));
        match array[hash] {
            Some(other_attack) => {
                let ghost i0 = choose|i: int| 0 <= i < k && #[trigger] magic_index(table[i].0, magic, shift) == hash;
                proof {
                    assert(array@[magic_index(table[i0].0, magic, shift)] == Some(table[i0].1));
                }
                if other_attack != attack {
                    proof {
                        assert(magic_index(table[i0].0, magic, shift) == magic_index(table[k as int].0, magic, shift));
                    }
                    return None;
                }
                proof {
                    assert forall|i: int, j: int|
                        0 <= i < next.len() && 0 <= j < next.len() && #[trigger] magic_index(
                            next[i].0,
                            magic,
                            shift,
                        ) == #[trigger] magic_index(next[j].0, magic, shift) implies next[i].1
                        == next[j].1 by {
                        if i < k {
                            assert(array@[magic_index(table[i].0, magic, shift)] == Some(table[i].1));
                        }
                        if j < k {
                            assert(array@[magic_index(table[j].0, magic, shift)] == Some(table[j].1));
                        }
                    }
                }
            },
            None => {
                let ghost before = array@;
                array.set(hash, Some(attack));
                proof {
                    assert forall|i: int|
                        0 <= i < k implies #[trigger] magic_index(table[i].0, magic, shift) != hash by {
                        assert(before[magic_index(table[i].0, magic, shift)] == Some(table[i].1));
                    }
                    assert forall|i: int, j: int|
                        0 <= i < next.len() && 0 <= j < next.len() && #[trigger] magic_index(
                            next[i].0,
                            magic,
                            shift,
                        ) == #[trigger] magic_index(next[j].0, magic, shift) implies next[i].1
                        == next[j].1 by {
                        if i < k && j < k {
                            assert(prefix[i] == next[i] && prefix[j] == next[j]);
                        }
                    }
                    assert forall|h: int|
                        0 <= h < 8192 && (#[trigger] array@[h]) is Some implies exists|i: int|
                            0 <= i < k + 1 && #[trigger] magic_index(table[i].0, magic, shift) == h by {
                        if h == hash {
                            assert(magic_index(table[k as int].0, magic, shift) == h);
                        } else {
                            assert(before[h] is Some);
                        }
                    }
                }
            },
        }
    }
    proof {
        assert(table.subrange(0, table.len() as int) =~= table);
    }
    Some(array)
}

/// Where the entries of `arr` below `n` end: one past the last `Some`, or 0.
pub open spec fn used_len(arr: Seq<Option<u64>>, n: int) -> int
    decreases n,
{
    if n <= 0 {
        0
    } else if arr[n - 1] is Some {
        n
    } else {
        used_len(arr, n - 1)
    }
}

proof fn lemma_used_len(arr: Seq<Option<u64>>, n: int)
    requires
        0 <= n <= arr.len(),
    ensures
        0 <= used_len(arr, n) <= n,
        used_len(arr, n) > 0 ==> arr[used_len(arr, n) - 1] is Some,
        forall|k: int| used_len(arr, n) <= k < n ==> #[trigger] arr[k] is None,
    decreases n,
{
    if n > 0 {
        lemma_used_len(arr, n - 1);
    }
}

/// `array` without its trailing `None`s.
pub fn trim_trailing_nones(array: Vec<Option<u64>>) -> (r: Vec<Option<u64>>)
    ensures
        r@ == array@.subrange(0, used_len(array@, array@.len() as int)),
        forall|k: int| r@.len() <= k < array@.len() ==> #[trigger] array@[k] is None,
        r@.len() == 0 || r@.last() is Some,
{
    let mut end = array.len();
    while end > 0 && array[end - 1].is_none()
        invariant
            end <= array@.len(),
            used_len(array@, end as int) == used_len(array@, array@.len() as int),
        decreases end,
    {
        end = end - 1;
    }
    proof {
        lemma_used_len(array@, array@.len() as int);
    }
    let mut out: Vec<Option<u64>> = Vec::new();
    for k in 0..end
        invariant
            end <= array@.len(),
            out@ == array@.subrange(0, k as int),
    {
        out.push(array[k]);
        proof {
            assert(out@ =~= array@.subrange(0, k + 1));
        }
    }
    out
}

/// The array of a consistent magic: at each index, the attacks of the entries
/// that hash there, if any.
pub open spec fn magic_array_of(table: Seq<(u64, u64)>, magic: u64, shift: usize) -> Seq<Option<u64>> {
    Seq::new(
        8192,
        |h: int|
            if exists|i: int| 0 <= i < table.len() && #[trigger] magic_index(table[i].0, magic, shift) == h {
                Some(
                    table[choose|i: int|
                        0 <= i < table.len() && #[trigger] magic_index(table[i].0, magic, shift)
                            == h].1,
                )
            } else {
                None
            },
    )
}

/// The array of a consistent magic is determined by the magic.
proof fn lemma_magic_array_unique(arr: Seq<Option<u64>>, table: Seq<(u64, u64)>, magic: u64, shift: usize)
    requires
        magic_consistent(table, magic, shift),
        magic_array(arr, table, magic, shift),
    ensures
        arr == magic_array_of(table, magic, shift),
{
    let m = magic_array_of(table, magic, shift);
    assert forall|h: int| 0 <= h < 8192 implies arr[h] == m[h] by {
        if exists|i: int| 0 <= i < table.len() && #[trigger] magic_index(table[i].0, magic, shift) == h {
            let i = choose|i: int|
                0 <= i < table.len() && #[trigger] magic_index(table[i].0, magic, shift) == h;
            assert(arr[magic_index(table[i].0, magic, shift)] == Some(table[i].1));
        } else {
            if arr[h] is Some {
                assert(exists|i: int|
                    0 <= i < table.len() && #[trigger] magic_index(table[i].0, magic, shift) == h);
            }
        }
    }
    assert(arr =~= m);
}

/// `arr` without its trailing `None`s.
pub open spec fn trimmed(arr: Seq<Option<u64>>) -> Seq<Option<u64>> {
    arr.subrange(0, used_len(arr, arr.len() as int))
}

/// The result of trying `magic` at each shift from `shift` to 61, stopping at
/// the first shift with a clash: the last shift whose trimmed array was
/// shorter than every one before it and than `limit`, with that array.
pub open spec fn best_shift(table: Seq<(u64, u64)>, magic: u64, shift: int, limit: int) -> Option<
    (int, Seq<Option<u64>>),
>
    decreases 62 - shift,
{
    if shift > 61 || shift < 0 || !magic_consistent(table, magic, shift as usize) {
        None
    } else {
        let t = trimmed(magic_array_of(table, magic, shift as usize));
        if t.len() < limit {
            match best_shift(table, magic, shift + 1, t.len() as int) {
                Some(better) => Some(better),
                None => Some((shift, t)),
            }
        } else {
            best_shift(table, magic, shift + 1, limit)
        }
    }
}

/// Shifts of 51 or more keep every index below the array's length.
proof fn lemma_indices_fit(table: Seq<(u64, u64)>, magic: u64, shift: usize)
    requires
        51 <= shift < 64,
    ensures
        indices_fit(table, magic, shift),
{
    assert forall|i: int| 0 <= i < table.len() implies #[trigger] magic_index(table[i].0, magic, shift)
        < 8192 by {
        let x = table[i].0.wrapping_mul(magic);
        let s = shift as u64;
        assert(x >> s < 8192) by (bit_vector)
            requires
                51 <= s < 64,
        ;
    }
}

/// In the array of a consistent magic, every entry's attacks stand at its index.
proof fn lemma_magic_array_of_lookup(table: Seq<(u64, u64)>, magic: u64, shift: usize, i: int)
    requires
        magic_consistent(table, magic, shift),
        indices_fit(table, magic, shift),
        0 <= i < table.len(),
    ensures
        magic_array_of(table, magic, shift)[magic_index(table[i].0, magic, shift)] == Some(table[i].1),
{
    let h = magic_index(table[i].0, magic, shift);
    assert(magic_index(table[i].0, magic, shift) < 8192);
    assert(exists|j: int| 0 <= j < table.len() && #[trigger] magic_index(table[j].0, magic, shift) == h);
    let j = choose|j: int| 0 <= j < table.len() && #[trigger] magic_index(table[j].0, magic, shift) == h;
    assert(table[j].1 == table[i].1);
}

/// A magic found by the shift search stores, at the index of each set of
/// blockers, the attacks for that set: the lookup the tables are made for.
pub proof fn lemma_best_shift_lookup(table: Seq<(u64, u64)>, magic: u64, shift: int, limit: int)
    requires
        51 <= shift,
        best_shift(table, magic, shift, limit) is Some,
    ensures
        ({
            let (s, arr) = best_shift(table, magic, shift, limit)->0;
            &&& 51 <= s <= 61
            &&& forall|i: int|
                0 <= i < table.len() ==> #[trigger] magic_index(table[i].0, magic, s as usize)
                    < arr.len() && arr[magic_index(table[i].0, magic, s as usize)] == Some(table[i].1)
        }),
    decreases 62 - shift,
{
    let t = trimmed(magic_array_of(table, magic, shift as usize));
    if t.len() < limit && best_shift(table, magic, shift + 1, t.len() as int) is Some {
        lemma_best_shift_lookup(table, magic, shift + 1, t.len() as int);
    } else if t.len() >= limit {
        lemma_best_shift_lookup(table, magic, shift + 1, limit);
    } else {
        lemma_indices_fit(table, magic, shift as usize);
        let a = magic_array_of(table, magic, shift as usize);
        lemma_used_len(a, a.len() as int);
        assert forall|i: int| 0 <= i < table.len() implies #[trigger] magic_index(
            table[i].0,
            magic,
            shift as usize,
        ) < t.len() && t[magic_index(table[i].0, magic, shift as usize)] == Some(table[i].1) by {
            lemma_magic_array_of_lookup(table, magic, shift as usize, i);
        }
    }
}

/// The attacks of a bishop (`is_rook` false) or rook on `sq`.
pub open spec fn slider_attacks(sq: int, occ: u64, is_rook: bool) -> u64 {
    if is_rook {
        rook_attacks(sq, occ)
    } else {
        bishop_attacks(sq, occ)
    }
}

/// The relevancy mask of a bishop (`is_rook` false) or rook on `sq`.
pub open spec fn relevancy_of(sq: int, is_rook: bool) -> u64 {
    if is_rook {
        rook_relevancy_of(sq)
    } else {
        bishop_relevancy_of(sq)
    }
}

/// `m` answers for the slider on `square`: its mask is the slider's relevancy
/// mask, its shift is below 64, and at the index of every set of blockers
/// within the mask its array holds the slider's attacks for that set.
pub open spec fn answers(m: MagicView, square: int, is_rook: bool) -> bool {
    &&& m.mask == relevancy_of(square, is_rook)
    &&& m.shift < 64
    &&& forall|b: u64|
        #[trigger] is_subset(b, m.mask) ==> 0 <= magic_index(b, m.magic, m.shift) < m.array.len()
            && m.array[magic_index(b, m.magic, m.shift)] == Some(slider_attacks(square, b, is_rook))
}

/// A magic that the shift search finds on complete blocker lists answers for
/// its slider: every set of blockers within the mask, not only those it was
/// tried on, finds its attacks at its index.
pub proof fn lemma_found_magic_answers(
    tables: BlockerTables,
    square: int,
    is_rook: bool,
    magic: u64,
    shift: int,
    limit: int,
)
    requires
        tables.wf(),
        tables.lists_all(),
        0 <= square < 64,
        51 <= shift,
        best_shift(tables.table(square, is_rook), magic, shift, limit) is Some,
    ensures
        ({
            let (s, arr) = best_shift(tables.table(square, is_rook), magic, shift, limit)->0;
            answers(
                MagicView { magic, mask: relevancy_of(square, is_rook), shift: s as usize, array: arr },
                square,
                is_rook,
            )
        }),
{
    let table = tables.table(square, is_rook);
    let rel = relevancy_of(square, is_rook);
    let (s, arr) = best_shift(table, magic, shift, limit)->0;
    lemma_best_shift_lookup(table, magic, shift, limit);
    crate::bits::lemma_has_ops();
    crate::attacks::lemma_attacks_miss_origin(square, 0, bishop_dirs(), 4);
    crate::attacks::lemma_attacks_miss_origin(square, 0, rook_dirs(), 4);
    assert(!in_bb(rel, square));
    crate::bits::lemma_bits_upto_len(rel, 64, square);
    lemma_blocker_list_complete(rel);
    assert(table.len() == (1u64 << (square_count(rel) as u64)));
    assert forall|b: u64| #[trigger] is_subset(b, rel) implies 0 <= magic_index(b, magic, s as usize)
        < arr.len() && arr[magic_index(b, magic, s as usize)] == Some(slider_attacks(square, b, is_rook)) by {
        let i = choose|i: nat| i < (1u64 << (square_count(rel) as u64)) && #[trigger] subset_at(rel, i + 1) == b;
        assert(table[i as int] == (b, slider_attacks(square, b, is_rook)));
        assert(magic_index(table[i as int].0, magic, s as usize) < arr.len());
    }
}

/// The attacks of the slider on `square` (a rook where `is_rook`, else a
/// bishop) for `occupancy`, looked up with `m`: the occupancy cut down to the
/// mask, multiplied by the magic and shifted right, is the index into the
/// array.
pub fn magic_attacks(m: &Magic, square: usize, is_rook: bool, occupancy: u64) -> (r: u64)
    requires
        square < 64,
        answers(m@, square as int, is_rook),
    ensures
        r == slider_attacks(square as int, occupancy, is_rook),
{
    let blockers = occupancy & m.mask;
    let index = blockers.wrapping_mul(m.magic) >> (m.shift as u64);
    proof {
        crate::bits::lemma_has_ops();
        crate::bits::lemma_bb_ext(blockers & !m.mask, 0);
        assert(is_subset(blockers, m@.mask));
        assert(index as int == magic_index(blockers, m@.magic, m@.shift));
        assert(m@.array[index as int] == Some(slider_attacks(square as int, blockers, is_rook)));
        lemma_relevant_blockers_decide(square as int, occupancy);
        assert(index < m.array@.len());
    }
    let n = m.array.len();
    assert(index < n);
    m.array[index as usize].unwrap()
}

/// Tries `magic` for `square` at each shift from `cur_shift` up to 61, as long
/// as the magic is free of clashes, and returns the magic with the shortest
/// trimmed array found that is shorter than `cur_len`; `None` where no shift
/// gives one.
pub fn search_shifts(
    magic: u64,
    square: usize,
    is_rook: bool,
    cur_len: usize,
    cur_shift: usize,
    tables: &BlockerTables,
) -> (r: Option<Magic>)
    requires
        tables.wf(),
        square < 64,
        51 <= cur_shift,
    ensures
        match (r, best_shift(tables.table(square as int, is_rook), magic, cur_shift as int, cur_len as int)) {
            (None, None) => true,
            (Some(m), Some((shift, arr))) => {
                &&& m.magic == magic
                &&& m.mask == (if is_rook {
                    rook_relevancy_of(square as int)
                } else {
                    bishop_relevancy_of(square as int)
                })
                &&& m.shift == shift
                &&& m.array@ == arr
            },
            _ => false,
        },
        tables.lists_all() ==> (r matches Some(m) ==> answers(m@, square as int, is_rook)),
{
    let ghost table = tables.table(square as int, is_rook);
    let mask = if is_rook {
        rook_relevancy(square)
    } else {
        bishop_relevancy(square)
    };
    let mut best: Option<Magic> = None;
    let mut limit = cur_len;
    let mut shift = cur_shift;
    while shift <= 61
        invariant
            tables.wf(),
            square < 64,
            51 <= shift,
            shift <= 62 || shift == cur_shift,
            table == tables.table(square as int, is_rook),
            mask == (if is_rook {
                rook_relevancy_of(square as int)
            } else {
                bishop_relevancy_of(square as int)
            }),
            best_shift(table, magic, cur_shift as int, cur_len as int) == match best_shift(
                table,
                magic,
                shift as int,
                limit as int,
            ) {
                Some(better) => Some(better),
                None => match best {
                    Some(m) => Some((m.shift as int, m.array@)),
                    None => None,
                },
            },
            best matches Some(m) ==> m.magic == magic && m.mask == mask,
        ensures
            best_shift(table, magic, shift as int, limit as int) is None,
            best_shift(table, magic, cur_shift as int, cur_len as int) == match best {
                Some(m) => Some((m.shift as int, m.array@)),
                None => None,
            },
            best matches Some(m) ==> m.magic == magic && m.mask == mask,
        decreases 62 - shift,
    {
        proof {
            lemma_indices_fit(table, magic, shift);
        }
        match check_magic(magic, square, shift, is_rook, tables) {
            Some(arr) => {
                proof {
                    lemma_magic_array_unique(arr@, table, magic, shift);
                }
                let trimmed_arr = trim_trailing_nones(arr);
                if trimmed_arr.len() < limit {
                    limit = trimmed_arr.len();
                    best = Some(Magic { magic, mask, shift, array: trimmed_arr });
                }
            },
            None => {
                assert(best_shift(table, magic, shift as int, limit as int) is None);
                break;
            },
        }
        shift = shift + 1;
    }
    proof {
        if tables.lists_all() && best is Some {
            lemma_found_magic_answers(*tables, square as int, is_rook, magic, cur_shift as int, cur_len as int);
        }
    }
    best
}

/// Whether an array of `len` entries improves on the stored magic `entry`:
/// there is none yet, or its array is longer.
pub fn improves(entry: &Option<Magic>, len: usize) -> (r: bool)
    ensures
        r == match entry {
            None => true,
            Some(m) => len < m.array@.len(),
        },
{
    match entry {
        None => true,
        Some(m) => len < m.array.len(),
    }
}

/// The thread-local random generator of the `rand` crate.
#[verifier::external_type_specification]
#[verifier::external_body]
pub struct ExThreadRng(rand::rngs::ThreadRng);

/// `rand::random_range(0..n)` draws a number from the range `0..n` with the
/// thread-local generator; it panics on an empty range. What is stated: the
/// number is below `n`. Which number comes is chance.
#[verifier::external_body]
fn random_below(n: usize) -> (r: usize)
    requires
        n > 0,
    ensures
        r < n,
{
    rand::random_range(0..n)
}

/// `rand::seq::index::sample(rng, length, amount)` draws `amount` distinct
/// indices from `0..length` (its documentation: "exactly `amount` distinct
/// indices"), panicking when `amount > length`; `into_vec` hands them out.
/// What is stated: that many, distinct, each below `length`. Which ones, and
/// their order, is chance.
#[verifier::external_body]
fn sample_indices(rng: &mut rand::rngs::ThreadRng, length: usize, amount: usize) -> (r: Vec<usize>)
    requires
        amount <= length,
    ensures
        r@.len() == amount,
        r@.no_duplicates(),
        forall|i: int| 0 <= i < r@.len() ==> #[trigger] r@[i] < length,
{
    rand::seq::index::sample(rng, length, amount).into_vec()
}

/// The bitboard of the given squares.
pub fn squares_to_bitboard(squares: &Vec<usize>) -> (r: u64)
    requires
        forall|i: int| 0 <= i < squares@.len() ==> #[trigger] squares@[i] < 64,
    ensures
        forall|t: int| 0 <= t < 64 ==> #[trigger] in_bb(r, t) == squares@.contains(t as usize),
{
    let mut acc: u64 = 0;
    proof {
        crate::bits::lemma_has_ops();
        assert(squares@.subrange(0, 0) =~= Seq::<usize>::empty());
    }
    for i in 0..squares.len()
        invariant
            forall|i: int| 0 <= i < squares@.len() ==> #[trigger] squares@[i] < 64,
            forall|t: int| 0 <= t < 64 ==> #[trigger] in_bb(acc, t) == squares@.subrange(0, i as int).contains(
                t as usize,
            ),
    {
        let ghost before = acc;
        acc = acc | (1u64 << (squares[i] as u64));
        proof {
            crate::bits::lemma_has_ops();
            assert(squares@.subrange(0, i + 1) =~= squares@.subrange(0, i as int).push(squares@[i as int]));
            assert forall|t: int| 0 <= t < 64 implies #[trigger] in_bb(acc, t) == squares@.subrange(
                0,
                i + 1,
            ).contains(t as usize) by {
                let old = squares@.subrange(0, i as int);
                let new = squares@.subrange(0, i + 1);
                assert(in_bb(before, t) == old.contains(t as usize));
                assert(in_bb(bit(squares@[i as int] as int), t) == (squares@[i as int] as int == t));
                if squares@[i as int] as int == t {
                    assert(new[i as int] == t as usize);
                } else if new.contains(t as usize) {
                    let j = choose|j: int| 0 <= j < new.len() && new[j] == t as usize;
                    assert(old[j] == t as usize);
                } else if old.contains(t as usize) {
                    let j = choose|j: int| 0 <= j < old.len() && old[j] == t as usize;
                    assert(new[j] == t as usize);
                }
            }
        }
    }
    proof {
        assert(squares@.subrange(0, squares@.len() as int) =~= squares@);
    }
    acc
}

/// How many squares a candidate sets, given three draws below 64: their mean,
/// rounded down.
pub fn candidate_size(a: usize, b: usize, c: usize) -> (r: usize)
    requires
        a < 64,
        b < 64,
        c < 64,
    ensures
        r == (a + b + c) / 3,
        r < 64,
{
    (a + b + c) / 3
}

/// A random magic candidate: the union of a random number of distinct random
/// squares, the number being the mean of three draws below 64
/// (`candidate_size`), the squares the bits of `squares_to_bitboard`.
pub fn gen_rng(rng: &mut rand::rngs::ThreadRng) -> (r: u64)
    ensures
        exists|idx: Seq<usize>|
            #![trigger idx.len()]
            idx.len() < 64 && idx.no_duplicates() && forall|t: int|
                0 <= t < 64 ==> #[trigger] in_bb(r, t) == idx.contains(t as usize),
{
    let a = random_below(64);
    let b = random_below(64);
    let c = random_below(64);
    let bits = candidate_size(a, b, c);
    let squares = sample_indices(rng, 64, bits);
    let r = squares_to_bitboard(&squares);
    assert(squares@.len() < 64);
    r
}

/// The bytes one stored magic takes besides its array: two `u64`s, a `usize`,
/// and the reference to its array (a pointer and a length).
pub open spec fn entry_bytes() -> int {
    16 + 3 * (usize::BITS / 8) as int
}

/// The bytes the first `n` entries of a table take when stored: for each
/// present magic, the magic itself and its array of `u64`s.
pub open spec fn table_bytes(t: Seq<Option<Magic>>, n: int) -> int
    decreases n,
{
    if n <= 0 {
        0
    } else {
        table_bytes(t, n - 1) + match t[n - 1] {
            Some(m) => entry_bytes() + 8 * m.array@.len(),
            None => 0,
        }
    }
}

proof fn lemma_table_bytes_grow(t: Seq<Option<Magic>>, i: int, n: int)
    requires
        0 <= i <= n,
    ensures
        0 <= table_bytes(t, i) <= table_bytes(t, n),
    decreases n - i,
{
    if i < n {
        lemma_table_bytes_grow(t, i, n - 1);
        assert(table_bytes(t, n - 1) >= 0) by {
            lemma_table_bytes_nonneg(t, n - 1);
        }
    } else {
        lemma_table_bytes_nonneg(t, n);
    }
}

proof fn lemma_table_bytes_nonneg(t: Seq<Option<Magic>>, n: int)
    ensures
        table_bytes(t, n) >= 0,
    decreases n,
{
    if n > 0 {
        lemma_table_bytes_nonneg(t, n - 1);
    }
}

/// The bytes a stored table takes: for each present magic, the magic itself
/// and its array of `u64`s; `None` where the total does not fit in a `usize`.
pub fn calc_size(arr: &[Option<Magic>]) -> (r: Option<usize>)
    ensures
        r == (if table_bytes(arr@, arr@.len() as int) <= usize::MAX {
            Some(table_bytes(arr@, arr@.len() as int) as usize)
        } else {
            None::<usize>
        }),
{
    let word: usize = (usize::BITS / 8) as usize;
    let fixed: usize = 16 + 3 * word;
    let mut total: usize = 0;
    for i in 0..arr.len()
        invariant
            word == usize::BITS / 8,
            fixed == entry_bytes(),
            total == table_bytes(arr@, i as int),
    {
        proof {
            lemma_table_bytes_grow(arr@, i + 1, arr@.len() as int);
        }
        if let Some(m) = &arr[i] {
            let array_bytes = match m.array.len().checked_mul(8) {
                Some(b) => b,
                None => {
                    return None;
                },
            };
            let entry = match array_bytes.checked_add(fixed) {
                Some(e) => e,
                None => {
                    return None;
                },
            };
            total = match total.checked_add(entry) {
                Some(t) => t,
                None => {
                    return None;
                },
            };
        }
    }
    Some(total)
}

/// A magic as the generated tables store it: its multiplier, mask and shift,
/// and its array with each empty entry written as 0.
pub struct StoredMagic {
    pub magic: u64,
    pub mask: u64,
    pub shift: usize,
    pub array: Vec<u64>,
}

/// `e` is how the generated source stores `m`: the same multiplier, mask and
/// shift, and the array with each empty entry written as 0.
pub open spec fn stores(e: StoredMagic, m: Magic) -> bool {
    &&& e.magic == m.magic
    &&& e.mask == m.mask
    &&& e.shift == m.shift
    &&& e.array@.len() == m.array@.len()
    &&& forall|k: int|
        0 <= k < m.array@.len() ==> #[trigger] e.array@[k] == match m.array@[k] {
            Some(x) => x,
            None => 0,
        }
}

/// The entries of a table as the generated source writes them; `None` where
/// some square has no magic.
pub fn stored_entries(table: &Vec<Option<Magic>>) -> (r: Option<Vec<StoredMagic>>)
    ensures
        r is None <==> exists|i: int| 0 <= i < table@.len() && #[trigger] table@[i] is None,
        r matches Some(v) ==> v@.len() == table@.len() && forall|i: int|
            0 <= i < v@.len() ==> stores(#[trigger] v@[i], table@[i]->0),
{
    let mut out: Vec<StoredMagic> = Vec::new();
    for i in 0..table.len()
        invariant
            out@.len() == i,
            forall|j: int| 0 <= j < i ==> #[trigger] table@[j] is Some,
            forall|j: int| 0 <= j < i ==> stores(#[trigger] out@[j], table@[j]->0),
    {
        match &table[i] {
            Some(m) => {
                let e = StoredMagic { magic: m.magic, mask: m.mask, shift: m.shift, array: dense_array(&m.array) };
                let ghost before = out@;
                out.push(e);
                proof {
                    assert(stores(out@[i as int], table@[i as int]->0));
                    assert forall|j: int| 0 <= j < i + 1 implies stores(#[trigger] out@[j], table@[j]->0) by {
                        if j < i {
                            assert(out@[j] == before[j]);
                        }
                    }
                }
            },
            None => {
                return None;
            },
        }
    }
    Some(out)
}

/// The array with each empty entry written as 0, as the generated tables store it.
pub fn dense_array(arr: &Vec<Option<u64>>) -> (r: Vec<u64>)
    ensures
        r@.len() == arr@.len(),
        forall|i: int|
            0 <= i < arr@.len() ==> #[trigger] r@[i] == match arr@[i] {
                Some(x) => x,
                None => 0,
            },
{
    let mut out: Vec<u64> = Vec::new();
    for i in 0..arr.len()
        invariant
            out@.len() == i,
            forall|k: int|
                0 <= k < i ==> #[trigger] out@[k] == match arr@[k] {
                    Some(x) => x,
                    None => 0,
                },
    {
        let x = match arr[i] {
            Some(x) => x,
            None => 0,
        };
        out.push(x);
    }
    out
}

} // verus!
