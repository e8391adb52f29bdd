//! The compressed list of missing tiles of a partial panorama.
//!
//! Tiles that hold nothing but background are not written; Pannellum learns
//! which they are from a string: for each face (`!` and the face letter) and
//! each level (`>` and the level in one Base83 digit), the column and row of
//! every missing tile, in Base83 with as many digits as the largest tile
//! number of the level needs. A missing tile whose parent (the tile of the
//! level below that covers it) is missing too is left out.
use vstd::prelude::*;
use vstd::string::StringExecFns;
use std::collections::BTreeSet;
use vstd::std_specs::iter::IteratorSpec;
use vstd::std_specs::cmp::OrdSpec;
use crate::b83::{
    b83_digit, b83_digit_value, decode_value, encode, encode_spec, encode_value, push_char,
};
use crate::geometry::{tile_count, tiles_per_side};

verus! {

/// A tile that holds only background and is therefore not written.
#[derive(Debug, Clone, Copy, PartialEq, Eq, Structural)]
pub struct MissingTile {
    pub face_idx: usize,
    pub level: u32,
    pub col: u32,
    pub row: u32,
}

/// The order of missing tiles: by face, then level, then column, then row.
pub open spec fn tile_lt(a: MissingTile, b: MissingTile) -> bool {
    ||| a.face_idx < b.face_idx
    ||| a.face_idx == b.face_idx && a.level < b.level
    ||| a.face_idx == b.face_idx && a.level == b.level && a.col < b.col
    ||| a.face_idx == b.face_idx && a.level == b.level && a.col == b.col && a.row < b.row
}

/// The sequence is in strictly increasing tile order (so holds no tile twice).
pub open spec fn strictly_sorted(q: Seq<MissingTile>) -> bool {
    forall|i: int, j: int| 0 <= i < j < q.len() ==> tile_lt(#[trigger] q[i], #[trigger] q[j])
}

/// The elements of a finite set of tiles in increasing order.
pub open spec fn sorted_tiles(s: Set<MissingTile>) -> Seq<MissingTile> {
    choose|q: Seq<MissingTile>| strictly_sorted(q) && q.to_set() == s
}

/// The tile of the level below that covers `t`.
pub open spec fn parent_tile(t: MissingTile) -> MissingTile {
    MissingTile { face_idx: t.face_idx, level: (t.level - 1) as u32, col: t.col / 2, row: t.row / 2 }
}

/// `t` need not be listed: its parent is missing too.
pub open spec fn is_redundant(t: MissingTile, s: Set<MissingTile>) -> bool {
    t.level > 1 && s.contains(parent_tile(t))
}

/// The missing tiles that are listed: those whose parent is not missing.
pub open spec fn listed_tiles(s: Set<MissingTile>) -> Set<MissingTile> {
    s.filter(|t: MissingTile| !is_redundant(t, s))
}

/// The letter of a cube face: front, back, up, down, left, right.
pub open spec fn face_letter(i: int) -> char {
    seq!['f', 'b', 'u', 'd', 'l', 'r'][i]
}

/// The least number of Base83 digits (at least one) that can write `n`
/// distinct values.
pub open spec fn b83_width(n: nat) -> nat
    decreases n,
{
    if n <= 83 {
        1
    } else {
        b83_width(((n + 82) / 83) as nat) + 1
    }
}

/// Digits used for the column and row of a missing tile of level `level`.
pub open spec fn tile_digits(sizes: Seq<u32>, tile: int, level: int) -> nat {
    b83_width(tiles_per_side(sizes[level] as int, tile) as nat)
}

/// The characters written for tile `t`, which follows `prev` in the list.
pub open spec fn missing_piece(
    t: MissingTile,
    prev: Option<MissingTile>,
    sizes: Seq<u32>,
    tile: int,
) -> Seq<char> {
    let face_part = if prev matches Some(p) && p.face_idx == t.face_idx {
        Seq::empty()
    } else {
        seq!['!', face_letter(t.face_idx as int)]
    };
    let level_part = if prev matches Some(p) && p.level == t.level {
        Seq::empty()
    } else {
        seq!['>'] + encode_value(t.level as nat, 1)
    };
    let d = tile_digits(sizes, tile, t.level as int);
    face_part + level_part + encode_value(t.col as nat, d) + encode_value(t.row as nat, d)
}

/// The characters written for the sorted list `q` of missing tiles.
pub open spec fn missing_chars(q: Seq<MissingTile>, sizes: Seq<u32>, tile: int) -> Seq<char>
    decreases q.len(),
{
    if q.len() == 0 {
        Seq::empty()
    } else {
        let prev = if q.len() >= 2 {
            Some(q[q.len() - 2])
        } else {
            None
        };
        missing_chars(q.drop_last(), sizes, tile) + missing_piece(q.last(), prev, sizes, tile)
    }
}

/// The missing-tile string for the missing tiles `missing` (in any order,
/// repetitions allowed).
pub open spec fn missing_string(missing: Seq<MissingTile>, sizes: Seq<u32>, tile: int) -> Seq<char> {
    missing_chars(sorted_tiles(listed_tiles(missing.to_set())), sizes, tile)
}

/// Two strictly sorted sequences with the same elements are equal.
pub proof fn lemma_sorted_unique(q1: Seq<MissingTile>, q2: Seq<MissingTile>)
    requires
        strictly_sorted(q1),
        strictly_sorted(q2),
        q1.to_set() == q2.to_set(),
    ensures
        q1 == q2,
    decreases q1.len() + q2.len(),
{
    if q1.len() == 0 {
        if q2.len() > 0 {
            assert(q2.to_set().contains(q2[0]));
        }
        assert(q1 =~= q2);
    } else if q2.len() == 0 {
        assert(q1.to_set().contains(q1[0]));
    } else {
        assert(q1.to_set().contains(q2[0]));
        assert(q2.to_set().contains(q1[0]));
        let k = choose|k: int| 0 <= k < q1.len() && q1[k] == q2[0];
        let m = choose|m: int| 0 <= m < q2.len() && q2[m] == q1[0];
        if k > 0 && m > 0 {
            assert(tile_lt(q1[0], q1[k]));
            assert(tile_lt(q2[0], q2[m]));
        }
        assert(q1[0] == q2[0]);
        let r1 = q1.drop_first();
        let r2 = q2.drop_first();
        assert forall|x: MissingTile| r1.to_set().contains(x) implies r2.to_set().contains(x) by {
            let i = choose|i: int| 0 <= i < r1.len() && r1[i] == x;
            assert(tile_lt(q1[0], q1[i + 1]));
            assert(q2.to_set().contains(x));
            let j = choose|j: int| 0 <= j < q2.len() && q2[j] == x;
            assert(j != 0);
            assert(r2[j - 1] == x);
        }
        assert forall|x: MissingTile| r2.to_set().contains(x) implies r1.to_set().contains(x) by {
            let i = choose|i: int| 0 <= i < r2.len() && r2[i] == x;
            assert(tile_lt(q2[0], q2[i + 1]));
            assert(q1.to_set().contains(x));
            let j = choose|j: int| 0 <= j < q1.len() && q1[j] == x;
            assert(j != 0);
            assert(r1[j - 1] == x);
        }
        assert(r1.to_set() =~= r2.to_set());
        lemma_sorted_unique(r1, r2);
        assert(q1 =~= seq![q1[0]] + r1);
        assert(q2 =~= seq![q2[0]] + r2);
    }
}

/// A strictly sorted sequence is the sorted list of its own elements.
pub proof fn lemma_sorted_tiles_of(q: Seq<MissingTile>)
    requires
        strictly_sorted(q),
    ensures
        sorted_tiles(q.to_set()) == q,
{
    let r = sorted_tiles(q.to_set());
    assert(strictly_sorted(r) && r.to_set() == q.to_set());
    lemma_sorted_unique(r, q);
}

/// The key by which the set of missing tiles orders and finds a tile: face,
/// level, column, row, compared in that order.
pub open spec fn tile_key(t: MissingTile) -> (usize, u32, u32, u32) {
    (t.face_idx, t.level, t.col, t.row)
}

/// The set of the keys of the missing tiles.
fn missing_set(missing: &Vec<MissingTile>) -> (set: BTreeSet<(usize, u32, u32, u32)>)
    ensures
        forall|k: (usize, u32, u32, u32)|
            set@.contains(k) <==> exists|j: int|
                0 <= j < missing@.len() && #[trigger] tile_key(missing@[j]) == k,
{
    let mut set: BTreeSet<(usize, u32, u32, u32)> = BTreeSet::new();
    let mut i: usize = 0;
    while i < missing.len()
        invariant
            i <= missing@.len(),
            forall|k: (usize, u32, u32, u32)|
                set@.contains(k) <==> exists|j: int|
                    0 <= j < i && #[trigger] tile_key(missing@[j]) == k,
        decreases missing@.len() - i,
    {
        let t = missing[i];
        let ghost s0 = set@;
        set_insert(&mut set, (t.face_idx, t.level, t.col, t.row));
        proof {
            assert(tile_key(missing@[i as int]) == (t.face_idx, t.level, t.col, t.row));
            assert forall|k: (usize, u32, u32, u32)| set@.contains(k) <==> exists|j: int|
                0 <= j < i + 1 && #[trigger] tile_key(missing@[j]) == k by {
                if set@.contains(k) && k != tile_key(missing@[i as int]) {
                    assert(s0.contains(k));
                }
            }
        }
        i = i + 1;
    }
    set
}

/// Adds the key `k` to the set.
fn set_insert(set: &mut BTreeSet<(usize, u32, u32, u32)>, k: (usize, u32, u32, u32))
    ensures
        final(set)@ == old(set)@.insert(k),
{
    broadcast use vstd::laws_cmp::group_laws_cmp;

    set.insert(k);
}

/// Whether the set holds the key `k`.
fn set_has(set: &BTreeSet<(usize, u32, u32, u32)>, k: (usize, u32, u32, u32)) -> (r: bool)
    ensures
        r == set@.contains(k),
{
    broadcast use vstd::laws_cmp::group_laws_cmp;

    set.contains(&k)
}

/// The tiles of the set, in increasing order.
fn sorted_tiles_from(set: &BTreeSet<(usize, u32, u32, u32)>) -> (v: Vec<MissingTile>)
    ensures
        strictly_sorted(v@),
        forall|t: MissingTile| v@.contains(t) <==> set@.contains(tile_key(t)),
{
    broadcast use {vstd::laws_cmp::group_laws_cmp, vstd::std_specs::btree::group_btree_axioms};

    let ghost keys = vstd::std_specs::btree::spec_btree_keys_iter(set).remaining();
    let mut v: Vec<MissingTile> = Vec::new();
    for k in it: set.iter()
        invariant
            it.seq() == keys,
            v@.len() == it.index(),
            forall|j: int| 0 <= j < it.index() ==> tile_key(#[trigger] v@[j]) == *keys[j],
    {
        v.push(MissingTile { face_idx: k.0, level: k.1, col: k.2, row: k.3 });
    }
    proof {
        let ks = keys.unref();
        assert(v@.len() == keys.len());
        assert(ks.to_set() == set@);
        assert(vstd::laws_cmp::obeys_cmp::<usize>());
        assert(vstd::laws_cmp::obeys_cmp::<u32>());
        assert(vstd::laws_cmp::obeys_cmp::<(usize, u32, u32, u32)>());
        assert(vstd::laws_cmp::obeys_cmp::<&(usize, u32, u32, u32)>());
        assert(vstd::std_specs::btree::increasing_seq(keys));
        assert forall|a: int, b: int| 0 <= a < b < v@.len() implies tile_lt(
            #[trigger] v@[a],
            #[trigger] v@[b],
        ) by {
            assert((&keys[a]).cmp_spec(&&keys[b]) is Less);
        }
        assert forall|t: MissingTile| v@.contains(t) <==> set@.contains(tile_key(t)) by {
            if v@.contains(t) {
                let j = choose|j: int| 0 <= j < v@.len() && v@[j] == t;
                assert(ks[j] == tile_key(t));
                assert(ks.contains(tile_key(t)));
            }
            if set@.contains(tile_key(t)) {
                assert(ks.contains(tile_key(t)));
                let j = choose|j: int| 0 <= j < ks.len() && ks[j] == tile_key(t);
                assert(tile_key(v@[j]) == tile_key(t));
                assert(v@[j] == t);
            }
        }
    }
    v
}

/// A value below `83^k` (with `k >= 1`) needs at most `k` digits.
pub proof fn lemma_b83_width_bound(n: nat, k: nat)
    requires
        k >= 1,
        n <= vstd::arithmetic::power::pow(83, k),
    ensures
        b83_width(n) <= k,
    decreases n,
{
    if n > 83 {
        vstd::arithmetic::power::lemma_pow_adds(83, 1, (k - 1) as nat);
        vstd::arithmetic::power::lemma_pow1(83);
        if k == 1 {
            assert(false);
        }
        let m = ((n + 82) / 83) as nat;
        let p = vstd::arithmetic::power::pow(83, (k - 1) as nat);
        assert(n <= 83 * p);
        assert(m <= p) by {
            vstd::arithmetic::div_mod::lemma_div_is_ordered((n + 82) as int, 83 * p + 82, 83);
            vstd::arithmetic::div_mod::lemma_div_multiples_vanish_fancy(p, 82, 83);
        }
        assert(m < n);
        lemma_b83_width_bound(m, (k - 1) as nat);
    }
}

/// Number of Base83 digits needed for `n` distinct values (see [`b83_width`]).
fn b83_width_exec(n: u32) -> (d: usize)
    ensures
        d == b83_width(n as nat),
        1 <= d <= 6,
{
    let mut m: u32 = n;
    let mut d: usize = 1;
    proof {
        reveal_with_fuel(vstd::arithmetic::power::pow, 7);
        lemma_b83_width_bound(n as nat, 6);
    }
    while m > 83
        invariant
            1 <= d,
            b83_width(n as nat) == d - 1 + b83_width(m as nat),
            b83_width(n as nat) <= 6,
        decreases m,
    {
        m = ((m as u64 + 82) / 83) as u32;
        d = d + 1;
    }
    d
}

/// Appends to `out` the characters written for tile `mt`, which follows
/// `prev` in the list.
fn append_piece(
    out: &mut String,
    mt: MissingTile,
    prev: Option<MissingTile>,
    level_sizes: &Vec<u32>,
    tile_size: u32,
)
    requires
        mt.face_idx < 6,
        1 <= mt.level < level_sizes@.len(),
    ensures
        final(out)@ == old(out)@ + missing_piece(mt, prev, level_sizes@, tile_size as int),
{
    let ghost out0 = out@;
    let new_face = match prev {
        None => true,
        Some(p) => p.face_idx != mt.face_idx,
    };
    if new_face {
        push_char(out, '!');
        let letters: [char; 6] = ['f', 'b', 'u', 'd', 'l', 'r'];
        proof {
            assert(letters@ == seq!['f', 'b', 'u', 'd', 'l', 'r']);
        }
        push_char(out, letters[mt.face_idx]);
    }
    let ghost out1 = out@;
    let new_level = match prev {
        None => true,
        Some(p) => p.level != mt.level,
    };
    if new_level {
        push_char(out, '>');
        let level_arr: [u32; 1] = [mt.level];
        proof {
            assert(level_arr@ == seq![mt.level]);
        }
        let level_digits = encode(&level_arr, 1);
        out.append(level_digits.as_str());
    }
    let ghost out2 = out@;
    let n = tile_count(level_sizes[mt.level as usize], tile_size);
    let digits = b83_width_exec(n);
    let pos_arr: [u32; 2] = [mt.col, mt.row];
    proof {
        assert(pos_arr@ == seq![mt.col, mt.row]);
    }
    proof {
        assert(pos_arr@.len() * digits == 2 * digits);
    }
    let pos = encode(&pos_arr, digits);
    out.append(pos.as_str());
    proof {
        assert(seq![mt.level].drop_last() =~= Seq::<u32>::empty());
        assert(seq![mt.col, mt.row].drop_last() =~= seq![mt.col]);
        assert(seq![mt.col].drop_last() =~= Seq::<u32>::empty());
        assert(encode_spec(Seq::<u32>::empty(), 1) =~= Seq::<char>::empty());
        assert(encode_spec(seq![mt.level], 1) == encode_spec(Seq::<u32>::empty(), 1)
            + encode_value(mt.level as nat, 1));
        assert(encode_spec(seq![mt.level], 1) =~= encode_value(mt.level as nat, 1));
        assert(encode_spec(Seq::<u32>::empty(), digits as nat) =~= Seq::<char>::empty());
        assert(encode_spec(seq![mt.col], digits as nat) == encode_spec(
            Seq::<u32>::empty(),
            digits as nat,
        ) + encode_value(mt.col as nat, digits as nat));
        assert(encode_spec(seq![mt.col, mt.row], digits as nat) == encode_spec(
            seq![mt.col],
            digits as nat,
        ) + encode_value(mt.row as nat, digits as nat));
        let face_part = if prev matches Some(p) && p.face_idx == mt.face_idx {
            Seq::<char>::empty()
        } else {
            seq!['!', face_letter(mt.face_idx as int)]
        };
        let level_part = if prev matches Some(p) && p.level == mt.level {
            Seq::<char>::empty()
        } else {
            seq!['>'] + encode_value(mt.level as nat, 1)
        };
        assert(out1 =~= out0 + face_part);
        assert(out2 =~= out1 + level_part);
        assert(digits == tile_digits(level_sizes@, tile_size as int, mt.level as int));
        assert(out@ =~= out2 + encode_value(mt.col as nat, digits as nat) + encode_value(
            mt.row as nat,
            digits as nat,
        ));
        assert(out@ =~= out0 + missing_piece(mt, prev, level_sizes@, tile_size as int));
    }
}

/// The missing-tile string, or `None` when no tile is missing.
///
/// `level_sizes[l]` is the side of level `l` and `tile_size` the side of a
/// tile; the missing tiles may come in any order and repeat.
pub fn missing_tiles_string(
    missing: &Vec<MissingTile>,
    level_sizes: &Vec<u32>,
    tile_size: u32,
) -> (res: Option<String>)
    requires
        forall|i: int|
            0 <= i < missing@.len() ==> {
                &&& (#[trigger] missing@[i as int]).face_idx < 6
                &&& 1 <= missing@[i as int].level < level_sizes@.len()
                &&& tiles_per_side(level_sizes@[missing@[i as int].level as int] as int, tile_size as int)
                    >= 1
            },
    ensures
        res is Some <==> missing@.len() > 0,
        res matches Some(s) ==> s@ == missing_string(missing@, level_sizes@, tile_size as int),
{
    if missing.len() == 0 {
        return None;
    }
    // The set of missing tiles, and its tiles in increasing order.
    let tile_set = missing_set(missing);
    let set = sorted_tiles_from(&tile_set);
    proof {
        assert forall|x: MissingTile| #[trigger] set@.to_set().contains(x) <==> missing@.to_set().contains(x) by {
            if set@.contains(x) {
                let j = choose|j: int| 0 <= j < missing@.len() && #[trigger] tile_key(missing@[j]) == tile_key(x);
                assert(missing@[j] == x);
            }
            if missing@.contains(x) {
                let j = choose|j: int| 0 <= j < missing@.len() && missing@[j] == x;
                assert(tile_key(missing@[j]) == tile_key(x));
            }
        }
        assert(set@.to_set() =~= missing@.to_set());
    }
    let ghost all = set@.to_set();
    // The listed tiles: those whose parent is not missing, still sorted.
    let mut kept: Vec<MissingTile> = Vec::new();
    let mut i: usize = 0;
    while i < set.len()
        invariant
            i <= set@.len(),
            strictly_sorted(set@),
            all == set@.to_set(),
            forall|x: MissingTile| set@.contains(x) <==> tile_set@.contains(tile_key(x)),
            strictly_sorted(kept@),
            forall|j: int| 0 <= j < kept@.len() ==> set@.take(i as int).contains(#[trigger] kept@[j]),
            forall|x: MissingTile|
                kept@.contains(x) <==> set@.take(i as int).contains(x) && !is_redundant(x, all),
        decreases set@.len() - i,
    {
        let t = set[i];
        let redundant = t.level > 1 && set_has(
            &tile_set,
            (t.face_idx, t.level - 1, t.col / 2, t.row / 2),
        );
        let ghost kept0 = kept@;
        if !redundant {
            kept.push(t);
        }
        proof {
            if t.level > 1 {
                let p = parent_tile(t);
                assert(tile_key(p) == (t.face_idx, (t.level - 1) as u32, t.col / 2, t.row / 2));
                assert(set@.contains(p) <==> tile_set@.contains(tile_key(p)));
                assert(all.contains(p) <==> set@.contains(p));
            }
            assert(redundant == is_redundant(t, all));
            let p0 = set@.take(i as int);
            let p1 = set@.take(i + 1);
            let k1 = kept@;
            assert(p1[i as int] == t);
            assert forall|j: int| 0 <= j < k1.len() implies p1.contains(#[trigger] k1[j]) by {
                if j < kept0.len() {
                    assert(p0.contains(kept0[j]));
                    let m = choose|m: int| 0 <= m < p0.len() && p0[m] == kept0[j];
                    assert(p1[m] == k1[j]);
                } else {
                    assert(p1[i as int] == k1[j]);
                }
            }
            assert forall|a: int, b: int| 0 <= a < b < k1.len() implies tile_lt(
                #[trigger] k1[a],
                #[trigger] k1[b],
            ) by {
                if b >= kept0.len() {
                    assert(p0.contains(kept0[a]));
                    let m = choose|m: int| 0 <= m < p0.len() && p0[m] == kept0[a];
                    assert(set@[m] == k1[a]);
                    assert(tile_lt(set@[m], set@[i as int]));
                }
            }
            assert forall|x: MissingTile| k1.contains(x) <==> p1.contains(x) && !is_redundant(
                x,
                all,
            ) by {
                if p1.contains(x) {
                    let k = choose|k: int| 0 <= k < p1.len() && p1[k] == x;
                    if k < i {
                        assert(p0[k] == x);
                        assert(p0.contains(x));
                    }
                }
                if p0.contains(x) {
                    let k = choose|k: int| 0 <= k < p0.len() && p0[k] == x;
                    assert(p1[k] == x);
                }
                if k1.contains(x) {
                    let k = choose|k: int| 0 <= k < k1.len() && k1[k] == x;
                    if k < kept0.len() {
                        assert(kept0[k] == x);
                        assert(kept0.contains(x));
                    }
                }
                if kept0.contains(x) {
                    let k = choose|k: int| 0 <= k < kept0.len() && kept0[k] == x;
                    assert(k1[k] == x);
                }
                if !redundant {
                    assert(k1[kept0.len() as int] == t);
                }
            }
        }
        i = i + 1;
    }
    proof {
        assert(set@.take(set@.len() as int) == set@);
        assert forall|x: MissingTile| kept@.to_set().contains(x) <==> listed_tiles(all).contains(
            x,
        ) by {
            if set@.contains(x) {
                assert(all.contains(x));
            }
        }
        assert(kept@.to_set() =~= listed_tiles(all));
        lemma_sorted_tiles_of(kept@);
    }
    // The string itself.
    let mut out = String::new();
    let mut i: usize = 0;
    while i < kept.len()
        invariant
            i <= kept@.len(),
            forall|j: int| 0 <= j < kept@.len() ==> all.contains(#[trigger] kept@[j]),
            all == missing@.to_set(),
            forall|k: int|
                0 <= k < missing@.len() ==> {
                    &&& (#[trigger] missing@[k]).face_idx < 6
                    &&& 1 <= missing@[k].level < level_sizes@.len()
                    &&& tiles_per_side(level_sizes@[missing@[k].level as int] as int, tile_size as int)
                        >= 1
                },
            out@ == missing_chars(kept@.take(i as int), level_sizes@, tile_size as int),
        decreases kept@.len() - i,
    {
        let mt = kept[i];
        proof {
            assert(all.contains(mt));
            let ms = missing@;
            let k = choose|k: int| 0 <= k < ms.len() && ms[k] == mt;
            assert(ms[k] == mt);
        }
        let prev: Option<MissingTile> = if i == 0 {
            None
        } else {
            Some(kept[i - 1])
        };
        let ghost out0 = out@;
        append_piece(&mut out, mt, prev, level_sizes, tile_size);
        proof {
            let q = kept@.take(i + 1);
            assert(q.drop_last() == kept@.take(i as int));
            assert(q.last() == mt);
            if i > 0 {
                assert(q[q.len() - 2] == kept@[i - 1]);
            }
        }
        i = i + 1;
    }
    proof {
        assert(kept@.take(kept@.len() as int) == kept@);
    }
    Some(out)
}

/// Inserting a tile that is not there into a strictly sorted sequence.
proof fn lemma_sorted_insert(q: Seq<MissingTile>, t: MissingTile) -> (r: Seq<MissingTile>)
    requires
        strictly_sorted(q),
        !q.contains(t),
    ensures
        strictly_sorted(r),
        r.to_set() == q.to_set().insert(t),
    decreases q.len(),
{
    if q.len() == 0 {
        let r = seq![t];
        assert(r.to_set() =~= q.to_set().insert(t)) by {
            assert(r[0] == t);
        }
        r
    } else if tile_lt(q.last(), t) {
        let r = q.push(t);
        assert forall|a: int, b: int| 0 <= a < b < r.len() implies tile_lt(
            #[trigger] r[a],
            #[trigger] r[b],
        ) by {
            if b == q.len() && a < q.len() - 1 {
                assert(tile_lt(q[a], q[q.len() - 1]));
            }
        }
        assert(r.to_set() =~= q.to_set().insert(t)) by {
            assert forall|x: MissingTile| r.contains(x) <==> q.contains(x) || x == t by {
                if r.contains(x) {
                    let k = choose|k: int| 0 <= k < r.len() && r[k] == x;
                    if k < q.len() {
                        assert(q[k] == x);
                    }
                }
                if q.contains(x) {
                    let k = choose|k: int| 0 <= k < q.len() && q[k] == x;
                    assert(r[k] == x);
                }
                if x == t {
                    assert(r[q.len() as int] == x);
                }
            }
        }
        r
    } else {
        let last = q.last();
        let front = q.drop_last();
        assert(last != t) by {
            assert(q[q.len() - 1] == last);
        }
        assert forall|a: int, b: int| 0 <= a < b < front.len() implies tile_lt(
            #[trigger] front[a],
            #[trigger] front[b],
        ) by {
            assert(front[a] == q[a] && front[b] == q[b]);
        }
        assert(!front.contains(t)) by {
            if front.contains(t) {
                let k = choose|k: int| 0 <= k < front.len() && front[k] == t;
                assert(q[k] == t);
            }
        }
        let r0 = lemma_sorted_insert(front, t);
        let r = r0.push(last);
        assert forall|x: MissingTile| r0.contains(x) implies tile_lt(x, last) by {
            assert(r0.to_set().contains(x));
            if x != t {
                assert(front.to_set().contains(x));
                let k = choose|k: int| 0 <= k < front.len() && front[k] == x;
                assert(tile_lt(q[k], q[q.len() - 1]));
            }
        }
        assert forall|a: int, b: int| 0 <= a < b < r.len() implies tile_lt(
            #[trigger] r[a],
            #[trigger] r[b],
        ) by {
            if b == r0.len() {
                assert(r0.contains(r0[a]));
            } else {
                assert(r[a] == r0[a] && r[b] == r0[b]);
            }
        }
        assert(r.to_set() =~= q.to_set().insert(t)) by {
            assert(q =~= front.push(last));
            assert forall|x: MissingTile| r.contains(x) <==> q.contains(x) || x == t by {
                if r.contains(x) {
                    let k = choose|k: int| 0 <= k < r.len() && r[k] == x;
                    if k < r0.len() {
                        assert(r0[k] == x);
                        assert(r0.to_set().contains(x));
                        if x != t {
                            assert(front.to_set().contains(x));
                            let j = choose|j: int| 0 <= j < front.len() && front[j] == x;
                            assert(q[j] == x);
                        }
                    } else {
                        assert(q[q.len() - 1] == x);
                    }
                }
                if q.contains(x) {
                    let k = choose|k: int| 0 <= k < q.len() && q[k] == x;
                    if k < front.len() {
                        assert(front[k] == x);
                        assert(front.to_set().contains(x));
                        assert(r0.to_set().contains(x));
                        let j = choose|j: int| 0 <= j < r0.len() && r0[j] == x;
                        assert(r[j] == x);
                    } else {
                        assert(r[r0.len() as int] == x);
                    }
                }
                if x == t {
                    assert(r0.to_set().contains(t));
                    let j = choose|j: int| 0 <= j < r0.len() && r0[j] == t;
                    assert(r[j] == t);
                }
            }
        }
        r
    }
}

/// Every finite set of tiles can be listed in increasing order.
proof fn lemma_sorted_exists(s: Set<MissingTile>)
    requires
        s.finite(),
    ensures
        exists|q: Seq<MissingTile>| strictly_sorted(q) && q.to_set() == s,
    decreases s.len(),
{
    if s.len() == 0 {
        let q = Seq::<MissingTile>::empty();
        assert(q.to_set() =~= s);
        assert(strictly_sorted(q));
    } else {
        let x = s.choose();
        lemma_sorted_exists(s.remove(x));
        let q0 = choose|q: Seq<MissingTile>| strictly_sorted(q) && q.to_set() == s.remove(x);
        assert(!q0.contains(x)) by {
            if q0.contains(x) {
                assert(q0.to_set().contains(x));
            }
        }
        let q = lemma_sorted_insert(q0, x);
        assert(q.to_set() =~= s);
    }
}

/// The missing-tile string lists, in increasing order (by face, level,
/// column, row), exactly the missing tiles whose covering tile is not
/// missing: a tile of level `level > 1` at column `col` and row `row` is left
/// out exactly when the tile of the same face at level `level - 1`, column
/// `col / 2` and row `row / 2` is missing too.
pub proof fn lemma_missing_string_leaves_out_covered_tiles(
    missing: Seq<MissingTile>,
    sizes: Seq<u32>,
    tile: int,
)
    ensures
        exists|q: Seq<MissingTile>|
            {
                &&& strictly_sorted(q)
                &&& missing_string(missing, sizes, tile) == missing_chars(q, sizes, tile)
                &&& forall|t: MissingTile|
                    #[trigger] q.contains(t) <==> missing.contains(t) && !(t.level > 1
                        && missing.contains(
                        MissingTile {
                            face_idx: t.face_idx,
                            level: (t.level - 1) as u32,
                            col: t.col / 2,
                            row: t.row / 2,
                        },
                    ))
            },
{
    let all = missing.to_set();
    let listed = listed_tiles(all);
    assert(listed.finite()) by {
        assert(listed.subset_of(all));
        vstd::set_lib::lemma_len_subset(listed, all);
    }
    lemma_sorted_exists(listed);
    let q = sorted_tiles(listed);
    assert(strictly_sorted(q) && q.to_set() == listed);
    assert forall|t: MissingTile| #[trigger] q.contains(t) <==> missing.contains(t) && !(t.level
        > 1 && missing.contains(
        MissingTile {
            face_idx: t.face_idx,
            level: (t.level - 1) as u32,
            col: t.col / 2,
            row: t.row / 2,
        },
    )) by {
        assert(q.contains(t) <==> q.to_set().contains(t));
        assert(all.contains(t) <==> missing.contains(t));
        let p = MissingTile {
            face_idx: t.face_idx,
            level: (t.level - 1) as u32,
            col: t.col / 2,
            row: t.row / 2,
        };
        assert(all.contains(p) <==> missing.contains(p));
    }
}

/// The index of a face letter: front, back, up, down, left, right.
pub open spec fn face_index(c: char) -> int {
    if c == 'f' {
        0
    } else if c == 'b' {
        1
    } else if c == 'u' {
        2
    } else if c == 'd' {
        3
    } else if c == 'l' {
        4
    } else {
        5
    }
}

/// The tiles that a missing-tile string names, read from the front as the
/// viewer reads it: `!` and a letter set the face, `>` and a digit set the
/// level, and otherwise the next digits give a column and a row, each as
/// many Base83 digits as the current level's largest tile number needs.
pub open spec fn decode_missing(
    s: Seq<char>,
    sizes: Seq<u32>,
    tile: int,
    face: int,
    level: int,
) -> Set<MissingTile>
    decreases s.len(),
{
    if s.len() == 0 {
        Set::empty()
    } else if s[0] == '!' && s.len() >= 2 {
        decode_missing(s.skip(2), sizes, tile, face_index(s[1]), level)
    } else if s[0] == '>' && s.len() >= 2 {
        decode_missing(s.skip(2), sizes, tile, face, b83_digit_value(s[1]))
    } else {
        let d = b83_width(tiles_per_side(sizes[level] as int, tile) as nat) as int;
        if d >= 1 && s.len() >= 2 * d {
            decode_missing(s.skip(2 * d), sizes, tile, face, level).insert(
                MissingTile {
                    face_idx: face as usize,
                    level: level as u32,
                    col: decode_value(s.take(d)) as u32,
                    row: decode_value(s.skip(d).take(d)) as u32,
                },
            )
        } else {
            Set::empty()
        }
    }
}

/// `b83_width(n)` digits can write `n` distinct values, and there is at
/// least one digit.
proof fn lemma_b83_width_enough(n: nat)
    ensures
        b83_width(n) >= 1,
        n <= vstd::arithmetic::power::pow(83, b83_width(n)),
    decreases n,
{
    vstd::arithmetic::power::lemma_pow1(83);
    if n > 83 {
        let m = ((n + 82) / 83) as nat;
        lemma_b83_width_enough(m);
        let k = b83_width(m);
        vstd::arithmetic::power::lemma_pow_adds(83, 1, k);
        assert(n <= 83 * m);
        assert(83 * m <= 83 * vstd::arithmetic::power::pow(83, k)) by (nonlinear_arith)
            requires
                m <= vstd::arithmetic::power::pow(83, k),
        ;
    }
}

/// A missing tile that the string can name: a cube face, a level with one
/// Base83 digit and a size, and a column and row inside the level's grid.
pub open spec fn valid_missing_tile(t: MissingTile, sizes: Seq<u32>, tile: int) -> bool {
    &&& t.face_idx < 6
    &&& 1 <= t.level < 83
    &&& t.level < sizes.len()
    &&& t.col < tiles_per_side(sizes[t.level as int] as int, tile)
    &&& t.row < tiles_per_side(sizes[t.level as int] as int, tile)
}

/// Base83 digits are neither `!` nor `>`.
proof fn lemma_digit_not_marker(v: nat, d: nat)
    requires
        d >= 1,
    ensures
        encode_value(v, d)[0] != '!',
        encode_value(v, d)[0] != '>',
        encode_value(v, d).len() == d,
{
    crate::b83::lemma_encode_value_len(v, d);
    crate::b83::lemma_encode_value_index(v, d, 0);
    let x = ((v / (vstd::arithmetic::power::pow(83, (d - 1) as nat) as nat)) % 83) as int;
    assert(0 <= x < 83);
    assert(crate::b83::b83_alphabet().len() == 83);
    assert(!crate::b83::b83_alphabet().contains('!'));
    assert(!crate::b83::b83_alphabet().contains('>'));
    assert(crate::b83::b83_alphabet()[x] == b83_digit(x));
}

/// Reading the column and row digits of a tile on its face and level adds
/// that tile.
proof fn lemma_decode_position(t: MissingTile, sizes: Seq<u32>, tile: int, rest: Seq<char>)
    requires
        valid_missing_tile(t, sizes, tile),
    ensures
        ({
            let d = tile_digits(sizes, tile, t.level as int);
            decode_missing(
                encode_value(t.col as nat, d) + encode_value(t.row as nat, d) + rest,
                sizes,
                tile,
                t.face_idx as int,
                t.level as int,
            ) == decode_missing(rest, sizes, tile, t.face_idx as int, t.level as int).insert(t)
        }),
{
    let d = tile_digits(sizes, tile, t.level as int);
    let n = tiles_per_side(sizes[t.level as int] as int, tile);
    lemma_b83_width_enough(n as nat);
    let ec = encode_value(t.col as nat, d);
    let er = encode_value(t.row as nat, d);
    lemma_digit_not_marker(t.col as nat, d);
    crate::b83::lemma_encode_value_len(t.row as nat, d);
    crate::b83::lemma_encode_value_roundtrip(t.col as nat, d);
    crate::b83::lemma_encode_value_roundtrip(t.row as nat, d);
    let body = ec + er + rest;
    assert(body.take(d as int) =~= ec);
    assert(body.skip(d as int).take(d as int) =~= er);
    assert(body.skip(2 * d as int) =~= rest);
    assert(body[0] == ec[0]);
}

/// Reading the level marker of a tile (if written) sets the reader's level
/// to the tile's level.
proof fn lemma_decode_level_marker(t: MissingTile, prev: Option<MissingTile>, sizes: Seq<u32>, tile: int, body: Seq<char>, face: int, level: int)
    requires
        valid_missing_tile(t, sizes, tile),
        prev matches Some(p) ==> level == p.level,
        body.len() > 0,
        body[0] != '!',
        body[0] != '>',
    ensures
        ({
            let level_part = if prev matches Some(p) && p.level == t.level {
                Seq::<char>::empty()
            } else {
                seq!['>'] + encode_value(t.level as nat, 1)
            };
            decode_missing(level_part + body, sizes, tile, face, level) == decode_missing(
                body,
                sizes,
                tile,
                face,
                t.level as int,
            )
        }),
{
    let level_part = if prev matches Some(p) && p.level == t.level {
        Seq::<char>::empty()
    } else {
        seq!['>'] + encode_value(t.level as nat, 1)
    };
    let after = level_part + body;
    if level_part.len() > 0 {
        crate::b83::lemma_encode_value_len(t.level as nat, 1);
        crate::b83::lemma_encode_value_index(t.level as nat, 1, 0);
        vstd::arithmetic::power::lemma_pow0(83);
        crate::b83::lemma_digit_roundtrip(t.level as int);
        assert(after[0] == '>');
        assert(after.skip(2) =~= body);
        assert(b83_digit_value(after[1]) == t.level);
    } else {
        assert(after =~= body);
    }
}

/// Reading one piece of the string: the tile it names is added, and the
/// reader is left on that tile's face and level.
proof fn lemma_decode_piece(
    t: MissingTile,
    prev: Option<MissingTile>,
    sizes: Seq<u32>,
    tile: int,
    rest: Seq<char>,
    face: int,
    level: int,
)
    requires
        valid_missing_tile(t, sizes, tile),
        prev matches Some(p) ==> face == p.face_idx && level == p.level,
    ensures
        decode_missing(missing_piece(t, prev, sizes, tile) + rest, sizes, tile, face, level)
            == decode_missing(rest, sizes, tile, t.face_idx as int, t.level as int).insert(t),
{
    let face_part = if prev matches Some(p) && p.face_idx == t.face_idx {
        Seq::<char>::empty()
    } else {
        seq!['!', face_letter(t.face_idx as int)]
    };
    let level_part = if prev matches Some(p) && p.level == t.level {
        Seq::<char>::empty()
    } else {
        seq!['>'] + encode_value(t.level as nat, 1)
    };
    let d = tile_digits(sizes, tile, t.level as int);
    let n = tiles_per_side(sizes[t.level as int] as int, tile);
    lemma_b83_width_enough(n as nat);
    lemma_digit_not_marker(t.col as nat, d);
    let body = encode_value(t.col as nat, d) + encode_value(t.row as nat, d) + rest;
    assert(body[0] == encode_value(t.col as nat, d)[0]);
    lemma_decode_position(t, sizes, tile, rest);
    lemma_decode_level_marker(t, prev, sizes, tile, body, t.face_idx as int, level);
    let after_face = level_part + body;
    let all = face_part + after_face;
    assert(decode_missing(all, sizes, tile, face, level) == decode_missing(
        after_face,
        sizes,
        tile,
        t.face_idx as int,
        level,
    )) by {
        if face_part.len() > 0 {
            assert(all[0] == '!');
            assert(all.skip(2) =~= after_face);
            assert(face_index(all[1]) == t.face_idx);
        } else {
            assert(all =~= after_face);
        }
    }
    assert(missing_piece(t, prev, sizes, tile) + rest =~= all);
}

/// Reading the pieces of a list of tiles names exactly those tiles and
/// leaves the reader on the last tile's face and level.
proof fn lemma_decode_chars(
    q: Seq<MissingTile>,
    sizes: Seq<u32>,
    tile: int,
    rest: Seq<char>,
    face: int,
    level: int,
)
    requires
        q.len() > 0,
        forall|i: int| 0 <= i < q.len() ==> valid_missing_tile(#[trigger] q[i], sizes, tile),
    ensures
        decode_missing(missing_chars(q, sizes, tile) + rest, sizes, tile, face, level)
            == decode_missing(
            rest,
            sizes,
            tile,
            q.last().face_idx as int,
            q.last().level as int,
        ).union(q.to_set()),
    decreases q.len(),
{
    let t = q.last();
    let front = q.drop_last();
    if q.len() == 1 {
        assert(front =~= Seq::<MissingTile>::empty());
        assert(missing_chars(front, sizes, tile) =~= Seq::<char>::empty());
        assert(missing_chars(q, sizes, tile) =~= missing_piece(t, None, sizes, tile));
        lemma_decode_piece(t, None, sizes, tile, rest, face, level);
        assert(q.to_set() =~= set![t]);
    } else {
        let prev = q[q.len() - 2];
        let piece = missing_piece(t, Some(prev), sizes, tile);
        assert(missing_chars(q, sizes, tile) + rest =~= missing_chars(front, sizes, tile) + (piece
            + rest));
        lemma_decode_chars(front, sizes, tile, piece + rest, face, level);
        assert(front.last() == prev);
        lemma_decode_piece(
            t,
            Some(prev),
            sizes,
            tile,
            rest,
            prev.face_idx as int,
            prev.level as int,
        );
        assert(q =~= front.push(t));
        assert(q.to_set() =~= front.to_set().insert(t));
    }
}

/// Reading the missing-tile string back gives exactly the missing tiles
/// whose covering tile (same face, level `level - 1`, column `col / 2`, row
/// `row / 2`) is not missing; adding back the tiles under a listed tile
/// therefore gives the missing tiles again.
pub proof fn lemma_missing_string_decodes(missing: Seq<MissingTile>, sizes: Seq<u32>, tile: int)
    requires
        forall|i: int| 0 <= i < missing.len() ==> valid_missing_tile(#[trigger] missing[i], sizes, tile),
    ensures
        forall|face: int, level: int, t: MissingTile|
            #[trigger] decode_missing(missing_string(missing, sizes, tile), sizes, tile, face, level).contains(t)
                <==> missing.contains(t) && !(t.level > 1 && missing.contains(
                MissingTile {
                    face_idx: t.face_idx,
                    level: (t.level - 1) as u32,
                    col: t.col / 2,
                    row: t.row / 2,
                },
            )),
{
    lemma_missing_string_leaves_out_covered_tiles(missing, sizes, tile);
    let q = choose|q: Seq<MissingTile>|
        {
            &&& strictly_sorted(q)
            &&& missing_string(missing, sizes, tile) == missing_chars(q, sizes, tile)
            &&& forall|t: MissingTile|
                #[trigger] q.contains(t) <==> missing.contains(t) && !(t.level > 1
                    && missing.contains(
                    MissingTile {
                        face_idx: t.face_idx,
                        level: (t.level - 1) as u32,
                        col: t.col / 2,
                        row: t.row / 2,
                    },
                ))
        };
    assert forall|i: int| 0 <= i < q.len() implies valid_missing_tile(#[trigger] q[i], sizes, tile) by {
        assert(q.contains(q[i]));
        let j = choose|j: int| 0 <= j < missing.len() && missing[j] == q[i];
        assert(valid_missing_tile(missing[j], sizes, tile));
    }
    assert forall|face: int, level: int, t: MissingTile|
        #[trigger] decode_missing(missing_string(missing, sizes, tile), sizes, tile, face, level).contains(t)
            <==> q.contains(t) by {
        let str = missing_chars(q, sizes, tile);
        if q.len() == 0 {
            assert(str =~= Seq::<char>::empty());
        } else {
            lemma_decode_chars(q, sizes, tile, Seq::<char>::empty(), face, level);
            assert(str + Seq::<char>::empty() =~= str);
        }
    }
}

} // verus!
