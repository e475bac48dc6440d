//! Verified text helpers: building key-path strings and comparing them
//! lexicographically.

use vstd::prelude::*;
use vstd::string::{StrSliceExecFns, StringExecFns};
use crate::json::{decimal, digit_char, dot_path, index_path};

verus! {

/// The character sequences behind a sequence of strings.
pub open spec fn strings_view(s: Seq<String>) -> Seq<Seq<char>> {
    s.map_values(|x: String| x@)
}

/// Lexicographic order on character sequences: `a` comes strictly before `b`.
/// Characters compare by their scalar value; a strict prefix comes first.
pub open spec fn lex_lt(a: Seq<char>, b: Seq<char>) -> bool
    decreases a.len(),
{
    if b.len() == 0 {
        false
    } else if a.len() == 0 {
        true
    } else if a[0] == b[0] {
        lex_lt(a.drop_first(), b.drop_first())
    } else {
        (a[0] as u32) < (b[0] as u32)
    }
}

/// Dropping an equal prefix does not change the lexicographic comparison.
proof fn lemma_lex_lt_skip(a: Seq<char>, b: Seq<char>, i: int)
    requires
        0 <= i <= a.len(),
        i <= b.len(),
        forall|j: int| 0 <= j < i ==> a[j] == b[j],
    ensures
        lex_lt(a, b) == lex_lt(a.skip(i), b.skip(i)),
    decreases i,
{
    if i > 0 {
        assert(a[0] == b[0]);
        lemma_lex_lt_skip(a.drop_first(), b.drop_first(), i - 1);
        assert(a.drop_first().skip(i - 1) =~= a.skip(i));
        assert(b.drop_first().skip(i - 1) =~= b.skip(i));
    } else {
        assert(a.skip(0) =~= a);
        assert(b.skip(0) =~= b);
    }
}

/// The lexicographic order is trichotomous: two sequences are equal, or
/// exactly one comes first.
pub proof fn lemma_lex_lt_total(a: Seq<char>, b: Seq<char>)
    ensures
        a == b || lex_lt(a, b) || lex_lt(b, a),
        lex_lt(a, b) ==> !lex_lt(b, a),
        lex_lt(a, b) ==> a != b,
    decreases a.len(),
{
    if a.len() == 0 && b.len() == 0 {
        assert(a =~= b);
    }
    if a.len() > 0 && b.len() > 0 && a[0] != b[0] {
        vstd::utf8::char_u32_cast(a[0], a[0] as u32);
        vstd::utf8::char_u32_cast(b[0], b[0] as u32);
    }
    if a.len() > 0 && b.len() > 0 && a[0] == b[0] {
        lemma_lex_lt_total(a.drop_first(), b.drop_first());
        if a.drop_first() == b.drop_first() {
            assert forall|j: int| 0 <= j < a.len() implies a[j] == b[j] by {
                if j > 0 {
                    assert(a[j] == a.drop_first()[j - 1]);
                    assert(b[j] == b.drop_first()[j - 1]);
                }
            }
            assert(a =~= b);
        }
    }
}

/// The lexicographic order is transitive.
pub proof fn lemma_lex_lt_trans(a: Seq<char>, b: Seq<char>, c: Seq<char>)
    requires
        lex_lt(a, b),
        lex_lt(b, c),
    ensures
        lex_lt(a, c),
    decreases a.len(),
{
    if a.len() > 0 && b.len() > 0 && c.len() > 0 && a[0] == b[0] && b[0] == c[0] {
        lemma_lex_lt_trans(a.drop_first(), b.drop_first(), c.drop_first());
    }
}

/// Whether `a` comes strictly before `b` in lexicographic order.
pub fn str_lt(a: &str, b: &str) -> (r: bool)
    ensures
        r == lex_lt(a@, b@),
{
    let alen = a.unicode_len();
    let blen = b.unicode_len();
    let mut i: usize = 0;
    while i < alen && i < blen
        invariant
            alen == a@.len(),
            blen == b@.len(),
            i <= alen,
            i <= blen,
            forall|j: int| 0 <= j < i ==> a@[j] == b@[j],
        decreases alen - i,
    {
        let ca = a.get_char(i);
        let cb = b.get_char(i);
        if ca != cb {
            proof {
                lemma_lex_lt_skip(a@, b@, i as int);
            }
            return (ca as u32) < (cb as u32);
        }
        i += 1;
    }
    proof {
        lemma_lex_lt_skip(a@, b@, i as int);
    }
    alen < blen
}

/// Lexicographic order on sequences of key names: elementwise by `lex_lt`,
/// a strict prefix first.
pub open spec fn seq_lex_lt(a: Seq<Seq<char>>, b: Seq<Seq<char>>) -> bool
    decreases a.len(),
{
    if b.len() == 0 {
        false
    } else if a.len() == 0 {
        true
    } else if a[0] == b[0] {
        seq_lex_lt(a.drop_first(), b.drop_first())
    } else {
        lex_lt(a[0], b[0])
    }
}

/// The order on name sequences is trichotomous.
pub proof fn lemma_seq_lex_lt_total(a: Seq<Seq<char>>, b: Seq<Seq<char>>)
    ensures
        a == b || seq_lex_lt(a, b) || seq_lex_lt(b, a),
        seq_lex_lt(a, b) ==> !seq_lex_lt(b, a),
        seq_lex_lt(a, b) ==> a != b,
    decreases a.len(),
{
    if a.len() == 0 && b.len() == 0 {
        assert(a =~= b);
    }
    if a.len() > 0 && b.len() > 0 && a[0] != b[0] {
        lemma_lex_lt_total(a[0], b[0]);
    }
    if a.len() > 0 && b.len() > 0 && a[0] == b[0] {
        lemma_seq_lex_lt_total(a.drop_first(), b.drop_first());
        if a.drop_first() == b.drop_first() {
            assert forall|j: int| 0 <= j < a.len() implies a[j] == b[j] by {
                if j > 0 {
                    assert(a[j] == a.drop_first()[j - 1]);
                    assert(b[j] == b.drop_first()[j - 1]);
                }
            }
            assert(a =~= b);
        }
    }
}

/// The order on name sequences is transitive.
pub proof fn lemma_seq_lex_lt_trans(a: Seq<Seq<char>>, b: Seq<Seq<char>>, c: Seq<Seq<char>>)
    requires
        seq_lex_lt(a, b),
        seq_lex_lt(b, c),
    ensures
        seq_lex_lt(a, c),
    decreases a.len(),
{
    if a.len() > 0 && b.len() > 0 && c.len() > 0 {
        if a[0] == b[0] && b[0] == c[0] {
            lemma_seq_lex_lt_trans(a.drop_first(), b.drop_first(), c.drop_first());
        } else if a[0] == b[0] {
            assert(lex_lt(b[0], c[0]));
            lemma_lex_lt_total(a[0], c[0]);
        } else if b[0] == c[0] {
            assert(lex_lt(a[0], b[0]));
            lemma_lex_lt_total(a[0], c[0]);
        } else {
            lemma_lex_lt_trans(a[0], b[0], c[0]);
            lemma_lex_lt_total(a[0], c[0]);
        }
    }
}

/// The single-character text of a decimal digit.
fn digit_str(d: usize) -> (r: &'static str)
    requires
        d < 10,
    ensures
        r@ == seq![digit_char(d as nat)],
{
    proof {
        reveal_strlit("0");
        reveal_strlit("1");
        reveal_strlit("2");
        reveal_strlit("3");
        reveal_strlit("4");
        reveal_strlit("5");
        reveal_strlit("6");
        reveal_strlit("7");
        reveal_strlit("8");
        reveal_strlit("9");
    }
    let r: &'static str = match d {
        0 => "0",
        1 => "1",
        2 => "2",
        3 => "3",
        4 => "4",
        5 => "5",
        6 => "6",
        7 => "7",
        8 => "8",
        _ => "9",
    };
    proof {
        assert(r@ =~= seq![digit_char(d as nat)]);
    }
    r
}

/// The decimal text of `n`, without sign or leading zeros.
pub fn usize_to_string(n: usize) -> (r: String)
    ensures
        r@ == decimal(n as nat),
    decreases n,
{
    if n < 10 {
        digit_str(n).to_owned()
    } else {
        let mut s = usize_to_string(n / 10);
        s.append(digit_str(n % 10));
        proof {
            assert(s@ =~= decimal(n as nat));
        }
        s
    }
}

/// `n` spaces.
pub open spec fn spaces(n: nat) -> Seq<char>
    decreases n,
{
    if n == 0 {
        Seq::empty()
    } else {
        spaces((n - 1) as nat).push(' ')
    }
}

/// `n` dashes.
pub open spec fn dashes(n: nat) -> Seq<char>
    decreases n,
{
    if n == 0 {
        Seq::empty()
    } else {
        dashes((n - 1) as nat).push('-')
    }
}

/// A row of `n` spaces.
pub fn make_spaces(n: usize) -> (r: String)
    ensures
        r@ == spaces(n as nat),
{
    proof {
        reveal_strlit(" ");
    }
    let mut s = String::new();
    let mut i: usize = 0;
    while i < n
        invariant
            i <= n,
            " "@ =~= seq![' '],
            s@ == spaces(i as nat),
        decreases n - i,
    {
        s.append(" ");
        proof {
            assert(s@ =~= spaces(i as nat + 1));
        }
        i += 1;
    }
    s
}

/// A row of `n` dashes.
pub fn make_dashes(n: usize) -> (r: String)
    ensures
        r@ == dashes(n as nat),
{
    proof {
        reveal_strlit("-");
    }
    let mut s = String::new();
    let mut i: usize = 0;
    while i < n
        invariant
            i <= n,
            "-"@ =~= seq!['-'],
            s@ == dashes(i as nat),
        decreases n - i,
    {
        s.append("-");
        proof {
            assert(s@ =~= dashes(i as nat + 1));
        }
        i += 1;
    }
    s
}

/// `s` padded with spaces on the right up to width `w`; unchanged when
/// already that wide.
pub open spec fn pad_right(s: Seq<char>, w: nat) -> Seq<char> {
    if s.len() >= w {
        s
    } else {
        s + spaces((w - s.len()) as nat)
    }
}

/// `s` padded with spaces on the left up to width `w`.
pub open spec fn pad_left(s: Seq<char>, w: nat) -> Seq<char> {
    if s.len() >= w {
        s
    } else {
        spaces((w - s.len()) as nat) + s
    }
}

/// Pads `s` with spaces on the right up to width `w`.
pub fn pad_right_str(s: &str, w: usize) -> (r: String)
    ensures
        r@ == pad_right(s@, w as nat),
{
    let len = s.unicode_len();
    let mut out = s.to_owned();
    if len < w {
        out.append(make_spaces(w - len).as_str());
    }
    proof {
        assert(out@ =~= pad_right(s@, w as nat));
    }
    out
}

/// Pads `s` with spaces on the left up to width `w`.
pub fn pad_left_str(s: &str, w: usize) -> (r: String)
    ensures
        r@ == pad_left(s@, w as nat),
{
    let len = s.unicode_len();
    let mut out = String::new();
    if len < w {
        out.append(make_spaces(w - len).as_str());
    }
    out.append(s);
    proof {
        assert(out@ =~= pad_left(s@, w as nat));
    }
    out
}

/// Decimal digits split from the right into groups of three by commas.
pub open spec fn group_digits(ds: Seq<char>) -> Seq<char>
    decreases ds.len(),
{
    if ds.len() <= 3 {
        ds
    } else {
        group_digits(ds.take(ds.len() - 3)) + seq![','] + ds.skip(ds.len() - 3)
    }
}

/// The decimal text of `n` with a comma between each group of three
/// digits.
pub open spec fn grouped_decimal(n: nat) -> Seq<char> {
    group_digits(decimal(n))
}

/// Relies on num_format's `ToFormattedString` with `Locale::en`: the
/// decimal digits of the number, grouped in threes from the right with a
/// comma separator.
#[verifier::external_body]
pub fn format_count(n: usize) -> (r: String)
    ensures
        r@ == grouped_decimal(n as nat),
{
    num_format::ToFormattedString::to_formatted_string(&n, &num_format::Locale::en)
}

/// The decimal texts of the numbers, separated by a comma and a space.
pub open spec fn index_list_view(s: Seq<usize>, i: int) -> Seq<char>
    decreases s.len() - i,
{
    if 0 <= i < s.len() {
        decimal(s[i] as nat) + (if i + 1 < s.len() {
            ", "@
        } else {
            Seq::<char>::empty()
        }) + index_list_view(s, i + 1)
    } else {
        Seq::empty()
    }
}

/// Writes the numbers as a bracketed, comma-separated list.
pub fn format_index_list(v: &Vec<usize>) -> (r: String)
    ensures
        r@ == "["@ + index_list_view(v@, 0) + "]"@,
{
    let mut s = String::new();
    s.append("[");
    let mut i: usize = 0;
    while i < v.len()
        invariant
            i <= v@.len(),
            s@ + index_list_view(v@, i as int) == "["@ + index_list_view(v@, 0),
        decreases v@.len() - i,
    {
        s.append(usize_to_string(v[i]).as_str());
        if i + 1 < v.len() {
            s.append(", ");
        }
        proof {
            assert(s@ + index_list_view(v@, i + 1) =~= "["@ + index_list_view(v@, 0));
        }
        i += 1;
    }
    s.append("]");
    proof {
        assert(s@ =~= "["@ + index_list_view(v@, 0) + "]"@);
    }
    s
}

/// The texts, separated by a comma and a space.
pub open spec fn joined_view(s: Seq<Seq<char>>, i: int) -> Seq<char>
    decreases s.len() - i,
{
    if 0 <= i < s.len() {
        s[i] + (if i + 1 < s.len() {
            ", "@
        } else {
            Seq::<char>::empty()
        }) + joined_view(s, i + 1)
    } else {
        Seq::empty()
    }
}

/// Joins the strings with a comma and a space.
pub fn join_comma(v: &Vec<String>) -> (r: String)
    ensures
        r@ == joined_view(strings_view(v@), 0),
{
    let ghost sv = strings_view(v@);
    let mut s = String::new();
    let mut i: usize = 0;
    while i < v.len()
        invariant
            sv == strings_view(v@),
            i <= v@.len(),
            s@ + joined_view(sv, i as int) == joined_view(sv, 0),
        decreases v@.len() - i,
    {
        s.append(v[i].as_str());
        if i + 1 < v.len() {
            s.append(", ");
        }
        proof {
            assert(s@ + joined_view(sv, i + 1) =~= joined_view(sv, 0));
        }
        i += 1;
    }
    proof {
        assert(s@ =~= joined_view(sv, 0));
    }
    s
}

/// The key path of field `key` under `prefix`: `key` at the root, otherwise
/// `prefix.key`.
pub fn dot_join(prefix: &str, key: &str) -> (r: String)
    ensures
        r@ == dot_path(prefix@, key@),
{
    if prefix.unicode_len() == 0 {
        key.to_owned()
    } else {
        let mut s = prefix.to_owned();
        s.append(".");
        s.append(key);
        proof {
            reveal_strlit(".");
            assert(s@ =~= dot_path(prefix@, key@));
        }
        s
    }
}

/// The path prefix of the array element at position `i` under `prefix`:
/// `prefix[i]`.
pub fn index_join(prefix: &str, i: usize) -> (r: String)
    ensures
        r@ == index_path(prefix@, i as nat),
{
    let mut s = prefix.to_owned();
    s.append("[");
    s.append(usize_to_string(i).as_str());
    s.append("]");
    proof {
        reveal_strlit("[");
        reveal_strlit("]");
        assert(s@ =~= index_path(prefix@, i as nat));
    }
    s
}

} // verus!
