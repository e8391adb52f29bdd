//! Where the tiles are written: the relative paths of the level
//! directories, of the tile files and of the fallback faces, and how they
//! follow from the path patterns of the viewer configuration.
use vstd::prelude::*;
use vstd::string::StringExecFns;
use crate::b83::push_char;
use crate::config::{fallback_path_pattern, tile_path_pattern};

verus! {

/// The decimal digit with value `d`.
pub open spec fn decimal_digit(d: int) -> char {
    seq!['0', '1', '2', '3', '4', '5', '6', '7', '8', '9'][d]
}

/// The decimal numeral of `n`, without leading zeros.
pub open spec fn decimal(n: nat) -> Seq<char>
    decreases n,
{
    if n < 10 {
        seq![decimal_digit(n as int)]
    } else {
        decimal(n / 10).push(decimal_digit((n % 10) as int))
    }
}

/// A path pattern with its placeholders filled in: `%l` the level, `%s` the
/// face letter, `%y` the row and `%x` the column.
pub open spec fn expand_pattern(p: Seq<char>, level: nat, face: char, row: nat, col: nat) -> Seq<
    char,
>
    decreases p.len(),
{
    if p.len() == 0 {
        Seq::empty()
    } else if p.len() >= 2 && p[0] == '%' && p[1] == 'l' {
        decimal(level) + expand_pattern(p.skip(2), level, face, row, col)
    } else if p.len() >= 2 && p[0] == '%' && p[1] == 's' {
        seq![face] + expand_pattern(p.skip(2), level, face, row, col)
    } else if p.len() >= 2 && p[0] == '%' && p[1] == 'y' {
        decimal(row) + expand_pattern(p.skip(2), level, face, row, col)
    } else if p.len() >= 2 && p[0] == '%' && p[1] == 'x' {
        decimal(col) + expand_pattern(p.skip(2), level, face, row, col)
    } else {
        seq![p[0]] + expand_pattern(p.skip(1), level, face, row, col)
    }
}

/// The file name of a tile: face letter, row, `_`, column, `.`, extension.
pub open spec fn tile_file_spec(face: char, row: nat, col: nat, ext: Seq<char>) -> Seq<char> {
    seq![face] + decimal(row) + seq!['_'] + decimal(col) + seq!['.'] + ext
}

/// The file name of a fallback face: face letter, `.`, extension.
pub open spec fn fallback_file_spec(face: char, ext: Seq<char>) -> Seq<char> {
    seq![face, '.'] + ext
}

/// Appends the decimal numeral of `n` to `out`.
fn push_decimal(out: &mut String, n: u32)
    ensures
        final(out)@ == old(out)@ + decimal(n as nat),
{
    let mut digits: Vec<char> = Vec::new();
    let mut m: u32 = n;
    let ghost mut rest: nat = n as nat;
    let table: [char; 10] = ['0', '1', '2', '3', '4', '5', '6', '7', '8', '9'];
    proof {
        assert(table@ == seq!['0', '1', '2', '3', '4', '5', '6', '7', '8', '9']);
    }
    // digits holds the numeral of n without that of m, least significant first
    loop
        invariant
            table@ == seq!['0', '1', '2', '3', '4', '5', '6', '7', '8', '9'],
            decimal(n as nat) == decimal(m as nat) + digits@.reverse(),
        ensures
            m < 10,
            decimal(n as nat) == decimal(m as nat) + digits@.reverse(),
        decreases m,
    {
        if m < 10 {
            break;
        }
        let d = m % 10;
        let ghost before = digits@;
        digits.push(table[d as usize]);
        proof {
            assert(decimal(m as nat) == decimal((m / 10) as nat).push(decimal_digit((m % 10) as int)));
            assert(digits@.reverse() =~= seq![decimal_digit(d as int)] + before.reverse());
            assert(decimal(m as nat) + before.reverse() =~= decimal((m / 10) as nat)
                + digits@.reverse());
        }
        m = m / 10;
    }
    let ghost out0 = out@;
    push_char(out, table[m as usize]);
    let mut k: usize = digits.len();
    while k > 0
        invariant
            k <= digits@.len(),
            out@ == out0 + seq![decimal_digit(m as int)] + digits@.reverse().take(
                (digits@.len() - k) as int,
            ),
        decreases k,
    {
        let ghost o = out@;
        push_char(out, digits[k - 1]);
        proof {
            let r = digits@.reverse();
            assert(r[(digits@.len() - k) as int] == digits@[k - 1]);
            assert(r.take((digits@.len() - k + 1) as int) =~= r.take(
                (digits@.len() - k) as int,
            ).push(digits@[k - 1]));
        }
        k = k - 1;
    }
    proof {
        assert(digits@.reverse().take(digits@.len() as int) =~= digits@.reverse());
        assert(decimal(m as nat) =~= seq![decimal_digit(m as int)]);
    }
}

/// The name of the directory of level `level`: its decimal numeral.
pub fn level_dir_name(level: u32) -> (name: String)
    ensures
        name@ == decimal(level as nat),
{
    let mut name = String::new();
    push_decimal(&mut name, level);
    name
}

/// The file name of a tile (see [`tile_file_spec`]).
pub fn tile_file_name(face: char, row: u32, col: u32, ext: &str) -> (name: String)
    ensures
        name@ == tile_file_spec(face, row as nat, col as nat, ext@),
{
    let mut name = String::new();
    push_char(&mut name, face);
    push_decimal(&mut name, row);
    push_char(&mut name, '_');
    push_decimal(&mut name, col);
    push_char(&mut name, '.');
    name.append(ext);
    name
}

/// The file name of a fallback face (see [`fallback_file_spec`]).
pub fn fallback_file_name(face: char, ext: &str) -> (name: String)
    ensures
        name@ == fallback_file_spec(face, ext@),
{
    let mut name = String::new();
    push_char(&mut name, face);
    push_char(&mut name, '.');
    name.append(ext);
    name
}

/// One step of the expansion of a pattern.
proof fn lemma_expand_step(p: Seq<char>, level: nat, face: char, row: nat, col: nat)
    requires
        p.len() >= 1,
    ensures
        p[0] != '%' ==> expand_pattern(p, level, face, row, col) == seq![p[0]] + expand_pattern(
            p.skip(1),
            level,
            face,
            row,
            col,
        ),
        p.len() >= 2 && p[0] == '%' && p[1] == 'l' ==> expand_pattern(p, level, face, row, col)
            == decimal(level) + expand_pattern(p.skip(2), level, face, row, col),
        p.len() >= 2 && p[0] == '%' && p[1] == 's' ==> expand_pattern(p, level, face, row, col)
            == seq![face] + expand_pattern(p.skip(2), level, face, row, col),
        p.len() >= 2 && p[0] == '%' && p[1] == 'y' ==> expand_pattern(p, level, face, row, col)
            == decimal(row) + expand_pattern(p.skip(2), level, face, row, col),
        p.len() >= 2 && p[0] == '%' && p[1] == 'x' ==> expand_pattern(p, level, face, row, col)
            == decimal(col) + expand_pattern(p.skip(2), level, face, row, col),
{
}

/// The tiles are written where the configuration tells the viewer to look:
/// the tile path pattern, filled in for a tile and followed by `.` and the
/// extension, is `/`, the level directory, `/` and the tile's file name.
pub proof fn lemma_tile_path_matches_pattern(level: nat, face: char, row: nat, col: nat, ext: Seq<
    char,
>)
    ensures
        expand_pattern(tile_path_pattern(), level, face, row, col) + seq!['.'] + ext == seq!['/']
            + decimal(level) + seq!['/'] + tile_file_spec(face, row, col, ext),
{
    let p = tile_path_pattern();
    assert(p.len() == 11 && p[0] == '/' && p[1] == '%' && p[2] == 'l' && p[3] == '/' && p[4] == '%'
        && p[5] == 's' && p[6] == '%' && p[7] == 'y' && p[8] == '_' && p[9] == '%' && p[10] == 'x')
        by {
        reveal_strlit("/%l/%s%y_%x");
    }
    let e = |k: int| expand_pattern(p.skip(k), level, face, row, col);
    assert(e(11) =~= Seq::<char>::empty()) by {
        assert(p.skip(11) =~= Seq::<char>::empty());
    }
    assert(e(9) == decimal(col) + e(11)) by {
        lemma_expand_step(p.skip(9), level, face, row, col);
        assert(p.skip(9).skip(2) =~= p.skip(11));
    }
    assert(e(8) == seq!['_'] + e(9)) by {
        lemma_expand_step(p.skip(8), level, face, row, col);
        assert(p.skip(8).skip(1) =~= p.skip(9));
    }
    assert(e(6) == decimal(row) + e(8)) by {
        lemma_expand_step(p.skip(6), level, face, row, col);
        assert(p.skip(6).skip(2) =~= p.skip(8));
    }
    assert(e(4) == seq![face] + e(6)) by {
        lemma_expand_step(p.skip(4), level, face, row, col);
        assert(p.skip(4).skip(2) =~= p.skip(6));
    }
    assert(e(3) == seq!['/'] + e(4)) by {
        lemma_expand_step(p.skip(3), level, face, row, col);
        assert(p.skip(3).skip(1) =~= p.skip(4));
    }
    assert(e(1) == decimal(level) + e(3)) by {
        lemma_expand_step(p.skip(1), level, face, row, col);
        assert(p.skip(1).skip(2) =~= p.skip(3));
    }
    assert(e(0) == seq!['/'] + e(1)) by {
        lemma_expand_step(p.skip(0), level, face, row, col);
        assert(p.skip(0).skip(1) =~= p.skip(1));
    }
    assert(p.skip(0) =~= p);
    assert(expand_pattern(p, level, face, row, col) + seq!['.'] + ext =~= seq!['/']
        + decimal(level) + seq!['/'] + tile_file_spec(face, row, col, ext));
}

/// The fallback faces are written where the configuration says: the
/// fallback path pattern, filled in for a face and followed by `.` and the
/// extension, is `/fallback/` and the face's file name.
pub proof fn lemma_fallback_path_matches_pattern(face: char, ext: Seq<char>)
    ensures
        expand_pattern(fallback_path_pattern(), 0, face, 0, 0) + seq!['.'] + ext == seq![
            '/',
            'f',
            'a',
            'l',
            'l',
            'b',
            'a',
            'c',
            'k',
            '/',
        ] + fallback_file_spec(face, ext),
{
    let p = fallback_path_pattern();
    let q = seq!['/', 'f', 'a', 'l', 'l', 'b', 'a', 'c', 'k', '/', '%', 's'];
    assert(p =~= q) by {
        reveal_strlit("/fallback/%s");
    }
    assert(expand_pattern(q.skip(10), 0, face, 0, 0) =~= seq![face]) by {
        lemma_expand_step(q.skip(10), 0, face, 0, 0);
        assert(q.skip(10).skip(2) =~= Seq::<char>::empty());
    }
    lemma_expand_literal_prefix(q, 0, 10, face);
    assert(q.skip(0) =~= q);
    assert(expand_pattern(p, 0, face, 0, 0) + seq!['.'] + ext =~= q.subrange(0, 10)
        + fallback_file_spec(face, ext));
}

/// A run of characters without `%` is copied unchanged by the expansion.
proof fn lemma_expand_literal_prefix(q: Seq<char>, j: int, k: int, face: char)
    requires
        0 <= j <= k <= q.len(),
        forall|i: int| j <= i < k ==> q[i] != '%',
        expand_pattern(q.skip(k), 0, face, 0, 0) =~= seq![face],
    ensures
        expand_pattern(q.skip(j), 0, face, 0, 0) =~= q.subrange(j, k) + seq![face],
    decreases k - j,
{
    if j < k {
        lemma_expand_literal_prefix(q, j + 1, k, face);
        lemma_expand_step(q.skip(j), 0, face, 0, 0);
        assert(q.skip(j)[0] == q[j]);
        assert(q.skip(j).skip(1) =~= q.skip(j + 1));
    }
}

} // verus!
