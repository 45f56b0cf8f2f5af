//! String helpers: lexicographic order, searching, trimming, case folding
//! and decimal formatting, all specified over `Seq<char>` views.
use vstd::prelude::*;

verus! {

broadcast use vstd::utf8::char_u32_cast;

/// Lexicographic order on character sequences by unicode scalar value:
/// `a` comes at or before `b`.
pub open spec fn lex_le(a: Seq<char>, b: Seq<char>) -> bool
    decreases a.len(),
{
    if a.len() == 0 {
        true
    } else if b.len() == 0 {
        false
    } else if (a[0] as u32) < (b[0] as u32) {
        true
    } else if (a[0] as u32) > (b[0] as u32) {
        false
    } else {
        lex_le(a.drop_first(), b.drop_first())
    }
}

pub proof fn lemma_lex_le_total(a: Seq<char>, b: Seq<char>)
    ensures
        lex_le(a, b) || lex_le(b, a),
    decreases a.len(),
{
    if a.len() != 0 && b.len() != 0 && a[0] as u32 == b[0] as u32 {
        lemma_lex_le_total(a.drop_first(), b.drop_first());
    }
}

pub proof fn lemma_lex_le_antisymm(a: Seq<char>, b: Seq<char>)
    requires
        lex_le(a, b),
        lex_le(b, a),
    ensures
        a == b,
    decreases a.len(),
{
    if a.len() == 0 {
        assert(b.len() == 0);
        assert(a =~= b);
    } else {
        assert(b.len() != 0);
        assert(a[0] as u32 == b[0] as u32);
        assert(a[0] == b[0]) by {
            vstd::utf8::char_u32_cast(a[0], a[0] as u32);
            vstd::utf8::char_u32_cast(b[0], b[0] as u32);
        }
        lemma_lex_le_antisymm(a.drop_first(), b.drop_first());
        assert(a =~= seq![a[0]] + a.drop_first());
        assert(b =~= seq![b[0]] + b.drop_first());
    }
}

pub proof fn lemma_lex_le_trans(a: Seq<char>, b: Seq<char>, c: Seq<char>)
    requires
        lex_le(a, b),
        lex_le(b, c),
    ensures
        lex_le(a, c),
    decreases a.len(),
{
    if a.len() != 0 && b.len() != 0 && c.len() != 0 && a[0] as u32 == b[0] as u32 && b[0] as u32
        == c[0] as u32 {
        lemma_lex_le_trans(a.drop_first(), b.drop_first(), c.drop_first());
    }
}

/// If the first `k` characters of `a` and `b` agree, the order is decided
/// by the remainders.
proof fn lemma_lex_le_skip(a: Seq<char>, b: Seq<char>, k: int)
    requires
        0 <= k <= a.len(),
        k <= b.len(),
        forall|j: int| 0 <= j < k ==> a[j] == b[j],
    ensures
        lex_le(a, b) == lex_le(a.skip(k), b.skip(k)),
    decreases k,
{
    if k > 0 {
        assert(a.len() != 0 && b.len() != 0 && a[0] == b[0]);
        lemma_lex_le_skip(a.drop_first(), b.drop_first(), k - 1);
        assert(a.drop_first().skip(k - 1) =~= a.skip(k));
        assert(b.drop_first().skip(k - 1) =~= b.skip(k));
    } else {
        assert(a.skip(0) =~= a);
        assert(b.skip(0) =~= b);
    }
}

/// Whether `a` comes at or before `b` in lexicographic order.
pub fn str_le(a: &str, b: &str) -> (r: bool)
    ensures
        r == lex_le(a@, b@),
{
    let alen = a.unicode_len();
    let blen = b.unicode_len();
    let mut i: usize = 0;
    loop
        invariant
            i <= alen,
            i <= blen,
            alen == a@.len(),
            blen == b@.len(),
            forall|j: int| 0 <= j < i ==> a@[j] == b@[j],
        decreases alen - i,
    {
        proof {
            lemma_lex_le_skip(a@, b@, i as int);
        }
        if i == alen {
            assert(a@.skip(i as int).len() == 0);
            return true;
        }
        if i == blen {
            assert(b@.skip(i as int).len() == 0);
            assert(a@.skip(i as int).len() > 0);
            return false;
        }
        let ca = a.get_char(i);
        let cb = b.get_char(i);
        assert(a@.skip(i as int)[0] == a@[i as int]);
        assert(b@.skip(i as int)[0] == b@[i as int]);
        if (ca as u32) < (cb as u32) {
            return true;
        }
        if (ca as u32) > (cb as u32) {
            return false;
        }
        assert(ca == cb) by {
            assert(ca as u32 == cb as u32);
            vstd::utf8::char_u32_cast(ca, ca as u32);
            vstd::utf8::char_u32_cast(cb, cb as u32);
        }
        i = i + 1;
    }
}

/// Whether two string slices hold the same characters.
pub fn str_eq(a: &str, b: &str) -> (r: bool)
    ensures
        r == (a@ == b@),
{
    let x = a.to_owned();
    let y = b.to_owned();
    x == y
}

pub open spec fn has_prefix(s: Seq<char>, p: Seq<char>) -> bool {
    p.len() <= s.len() && s.take(p.len() as int) == p
}

pub open spec fn has_suffix(s: Seq<char>, p: Seq<char>) -> bool {
    p.len() <= s.len() && s.skip(s.len() - p.len()) == p
}

/// ASCII letters mapped to lower case; every other character kept.
pub open spec fn lower_c(c: char) -> char {
    if 65 <= c as u32 <= 90 {
        (((c as u32) + 32) as u8) as char
    } else {
        c
    }
}

/// The whole sequence mapped to lower case, ASCII-wise.
pub open spec fn lower(s: Seq<char>) -> Seq<char> {
    s.map_values(|c: char| lower_c(c))
}

/// Lower-cases one character, ASCII-wise.
pub fn lower_char(c: char) -> (r: char)
    ensures
        r == lower_c(c),
{
    let u = c as u32;
    if 65 <= u && u <= 90 {
        ((c as u8) + 32) as char
    } else {
        c
    }
}

/// Whether `s` starts with `p`, character for character.
pub fn starts_with_str(s: &str, p: &str) -> (r: bool)
    ensures
        r == has_prefix(s@, p@),
{
    let sl = s.unicode_len();
    let pl = p.unicode_len();
    if pl > sl {
        return false;
    }
    let mut i: usize = 0;
    while i < pl
        invariant
            i <= pl <= sl,
            sl == s@.len(),
            pl == p@.len(),
            forall|j: int| 0 <= j < i ==> s@[j] == p@[j],
        decreases pl - i,
    {
        if s.get_char(i) != p.get_char(i) {
            assert(!has_prefix(s@, p@)) by {
                assert(s@.take(pl as int)[i as int] != p@[i as int]);
            }
            return false;
        }
        i = i + 1;
    }
    assert(s@.take(pl as int) =~= p@);
    true
}

/// Whether `s` lower-cased equals the (already lower-case) `lit`.
pub fn eq_lower(s: &str, lit: &str) -> (r: bool)
    ensures
        r == (lower(s@) == lit@),
{
    let sl = s.unicode_len();
    let ll = lit.unicode_len();
    if sl != ll {
        return false;
    }
    let mut i: usize = 0;
    while i < sl
        invariant
            i <= sl,
            sl == s@.len() == lit@.len(),
            forall|j: int| 0 <= j < i ==> lower_c(s@[j]) == lit@[j],
        decreases sl - i,
    {
        if lower_char(s.get_char(i)) != lit.get_char(i) {
            assert(lower(s@)[i as int] != lit@[i as int]);
            return false;
        }
        i = i + 1;
    }
    assert(lower(s@) =~= lit@);
    true
}

/// Whether `s` lower-cased starts with the (already lower-case) `lit`.
pub fn starts_with_lower(s: &str, lit: &str) -> (r: bool)
    ensures
        r == has_prefix(lower(s@), lit@),
{
    let sl = s.unicode_len();
    let ll = lit.unicode_len();
    if ll > sl {
        return false;
    }
    let mut i: usize = 0;
    while i < ll
        invariant
            i <= ll <= sl,
            sl == s@.len(),
            ll == lit@.len(),
            forall|j: int| 0 <= j < i ==> lower_c(s@[j]) == lit@[j],
        decreases ll - i,
    {
        if lower_char(s.get_char(i)) != lit.get_char(i) {
            assert(!has_prefix(lower(s@), lit@)) by {
                assert(lower(s@).take(ll as int)[i as int] != lit@[i as int]);
            }
            return false;
        }
        i = i + 1;
    }
    assert(lower(s@).take(ll as int) =~= lit@);
    true
}

/// Whether `s` lower-cased ends with the (already lower-case) `lit`.
pub fn ends_with_lower(s: &str, lit: &str) -> (r: bool)
    ensures
        r == has_suffix(lower(s@), lit@),
{
    let sl = s.unicode_len();
    let ll = lit.unicode_len();
    if ll > sl {
        return false;
    }
    let off = sl - ll;
    let mut i: usize = 0;
    while i < ll
        invariant
            i <= ll <= sl,
            off == sl - ll,
            sl == s@.len(),
            ll == lit@.len(),
            forall|j: int| 0 <= j < i ==> lower_c(s@[off + j]) == lit@[j],
        decreases ll - i,
    {
        if lower_char(s.get_char(off + i)) != lit.get_char(i) {
            assert(!has_suffix(lower(s@), lit@)) by {
                assert(lower(s@).skip(off as int)[i as int] != lit@[i as int]);
            }
            return false;
        }
        i = i + 1;
    }
    assert(lower(s@).skip(off as int) =~= lit@);
    true
}

/// The characters of `s` from `from` (inclusive) to `to` (exclusive), owned.
pub fn substr_string(s: &str, from: usize, to: usize) -> (r: String)
    requires
        from <= to <= s@.len(),
    ensures
        r@ == s@.subrange(from as int, to as int),
{
    s.substring_char(from, to).to_owned()
}

pub open spec fn is_ws(c: char) -> bool {
    c == ' ' || c == '\t' || c == '\r' || c == '\n'
}

pub open spec fn trim_front(s: Seq<char>) -> Seq<char>
    decreases s.len(),
{
    if s.len() > 0 && is_ws(s[0]) {
        trim_front(s.drop_first())
    } else {
        s
    }
}

pub open spec fn trim_back(s: Seq<char>) -> Seq<char>
    decreases s.len(),
{
    if s.len() > 0 && is_ws(s.last()) {
        trim_back(s.drop_last())
    } else {
        s
    }
}

/// `s` with ASCII whitespace removed from both ends.
pub open spec fn spec_trim(s: Seq<char>) -> Seq<char> {
    trim_back(trim_front(s))
}

proof fn lemma_trim_front_skip(s: Seq<char>, a: int)
    requires
        0 <= a <= s.len(),
        forall|j: int| 0 <= j < a ==> is_ws(s[j]),
        a < s.len() ==> !is_ws(s[a]),
    ensures
        trim_front(s) == s.skip(a),
    decreases a,
{
    if a == 0 {
        assert(s.skip(0) =~= s);
    } else {
        lemma_trim_front_skip(s.drop_first(), a - 1);
        assert(s.drop_first().skip(a - 1) =~= s.skip(a));
    }
}

proof fn lemma_trim_back_sub(s: Seq<char>, b: int)
    requires
        0 <= b <= s.len(),
        forall|j: int| b <= j < s.len() ==> is_ws(s[j]),
        b > 0 ==> !is_ws(s[b - 1]),
    ensures
        trim_back(s) == s.take(b),
    decreases s.len() - b,
{
    if b == s.len() {
        assert(s.take(b) =~= s);
    } else {
        lemma_trim_back_sub(s.drop_last(), b);
        assert(s.drop_last().take(b) =~= s.take(b));
    }
}

/// `s` with ASCII whitespace removed from both ends, owned.
pub fn trim(s: &str) -> (r: String)
    ensures
        r@ == spec_trim(s@),
{
    let n = s.unicode_len();
    let mut a: usize = 0;
    while a < n && is_ws_char(s.get_char(a))
        invariant
            a <= n,
            n == s@.len(),
            forall|j: int| 0 <= j < a ==> is_ws(s@[j]),
        decreases n - a,
    {
        a = a + 1;
    }
    proof {
        lemma_trim_front_skip(s@, a as int);
    }
    let mut b: usize = n;
    while b > a && is_ws_char(s.get_char(b - 1))
        invariant
            a <= b <= n,
            n == s@.len(),
            forall|j: int| b <= j < n ==> is_ws(s@[j]),
        decreases b,
    {
        b = b - 1;
    }
    proof {
        if b == a {
            // everything from `a` on is whitespace, so the front trim is all whitespace
            lemma_trim_back_sub(s@.skip(a as int), 0);
        } else {
            lemma_trim_back_sub(s@.skip(a as int), b - a);
        }
        assert(s@.skip(a as int).take(b - a) =~= s@.subrange(a as int, b as int));
    }
    substr_string(s, a, b)
}

/// Whether `c` is ASCII whitespace.
pub fn is_ws_char(c: char) -> (r: bool)
    ensures
        r == is_ws(c),
{
    c == ' ' || c == '\t' || c == '\r' || c == '\n'
}

/// Index of the first occurrence of `c` in `s`, or the length of `s`.
pub open spec fn find_ch(s: Seq<char>, c: char) -> int
    decreases s.len(),
{
    if s.len() == 0 {
        0
    } else if s[0] == c {
        0
    } else {
        1 + find_ch(s.drop_first(), c)
    }
}

pub proof fn lemma_find_ch(s: Seq<char>, c: char)
    ensures
        0 <= find_ch(s, c) <= s.len(),
        find_ch(s, c) < s.len() ==> s[find_ch(s, c)] == c,
        forall|j: int| 0 <= j < find_ch(s, c) ==> s[j] != c,
    decreases s.len(),
{
    if s.len() > 0 && s[0] != c {
        lemma_find_ch(s.drop_first(), c);
        assert forall|j: int| 0 <= j < find_ch(s, c) implies s[j] != c by {
            if j > 0 {
                assert(s.drop_first()[j - 1] != c);
            }
        }
    }
}

pub proof fn lemma_find_ch_at(s: Seq<char>, c: char, k: int)
    requires
        0 <= k <= s.len(),
        forall|j: int| 0 <= j < k ==> s[j] != c,
        k < s.len() ==> s[k] == c,
    ensures
        find_ch(s, c) == k,
    decreases k,
{
    if s.len() > 0 && s[0] != c {
        lemma_find_ch_at(s.drop_first(), c, k - 1);
    }
}

/// `s` split at newline characters: the final line ending is optional and
/// does not open an extra empty line.
pub open spec fn spec_lines(s: Seq<char>) -> Seq<Seq<char>>
    decreases s.len(),
    via spec_lines_decreases
{
    if s.len() == 0 {
        Seq::empty()
    } else {
        let k = find_ch(s, '\n');
        if k == s.len() {
            seq![s]
        } else {
            seq![s.take(k)] + spec_lines(s.skip(k + 1))
        }
    }
}

#[via_fn]
proof fn spec_lines_decreases(s: Seq<char>) {
    lemma_find_ch(s, '\n');
}

/// The views of a sequence of owned strings.
pub open spec fn views(v: Seq<String>) -> Seq<Seq<char>> {
    v.map_values(|s: String| s@)
}

/// `text` split into its lines, at newline characters.
pub fn split_lines(text: &str) -> (r: Vec<String>)
    ensures
        views(r@) == spec_lines(text@),
{
    let n = text.unicode_len();
    let mut out: Vec<String> = Vec::new();
    let mut start: usize = 0;
    let mut i: usize = 0;
    proof {
        assert(text@.skip(0) =~= text@);
        assert(views(out@) + spec_lines(text@) =~= spec_lines(text@));
    }
    while i < n
        invariant
            start <= i <= n,
            n == text@.len(),
            forall|j: int| start <= j < i ==> text@[j] != '\n',
            spec_lines(text@) == views(out@) + spec_lines(text@.skip(start as int)),
        decreases n - i,
    {
        if text.get_char(i) == '\n' {
            let line = substr_string(text, start, i);
            proof {
                let rest = text@.skip(start as int);
                assert(forall|j: int| 0 <= j < i - start ==> rest[j] != '\n');
                assert(rest[i - start] == '\n');
                lemma_find_ch_at(rest, '\n', i - start);
                assert(rest.take(i - start) =~= text@.subrange(start as int, i as int));
                assert(rest.skip(i - start + 1) =~= text@.skip(i + 1));
                assert(views(out@.push(line)) =~= views(out@) + seq![line@]);
                assert(views(out@) + spec_lines(rest) =~= views(out@.push(line)) + spec_lines(
                    text@.skip(i + 1),
                ));
            }
            out.push(line);
            start = i + 1;
        }
        i = i + 1;
    }
    if start < n {
        let line = substr_string(text, start, n);
        proof {
            let rest = text@.skip(start as int);
            lemma_find_ch_at(rest, '\n', rest.len() as int);
            assert(rest =~= text@.subrange(start as int, n as int));
            assert(views(out@.push(line)) =~= views(out@) + seq![line@]);
            assert(spec_lines(text@) =~= views(out@.push(line)));
        }
        out.push(line);
    } else {
        assert(text@.skip(start as int).len() == 0);
        assert(spec_lines(text@) =~= views(out@));
    }
    out
}

/// Index of the first occurrence of `p` as a contiguous subsequence of `s`,
/// or -1 if there is none.
pub open spec fn find_sub(s: Seq<char>, p: Seq<char>) -> int
    decreases s.len(),
{
    if s.len() < p.len() {
        -1
    } else if s.take(p.len() as int) == p {
        0
    } else if s.len() == 0 {
        -1
    } else {
        let r = find_sub(s.drop_first(), p);
        if r < 0 {
            -1
        } else {
            1 + r
        }
    }
}

pub proof fn lemma_find_sub(s: Seq<char>, p: Seq<char>)
    ensures
        find_sub(s, p) >= 0 ==> find_sub(s, p) + p.len() <= s.len() && s.subrange(
            find_sub(s, p),
            find_sub(s, p) + p.len(),
        ) == p,
        find_sub(s, p) < 0 ==> forall|k: int|
            0 <= k <= s.len() - p.len() ==> #[trigger] s.subrange(k, k + p.len() as int) != p,
    decreases s.len(),
{
    if s.len() >= p.len() && s.take(p.len() as int) != p && s.len() > 0 {
        lemma_find_sub(s.drop_first(), p);
        let r = find_sub(s.drop_first(), p);
        if r >= 0 {
            assert(s.drop_first().subrange(r, r + p.len()) =~= s.subrange(1 + r, 1 + r + p.len()));
        } else {
            assert forall|k: int| 0 <= k <= s.len() - p.len() implies #[trigger] s.subrange(
                k,
                k + p.len() as int,
            ) != p by {
                if k == 0 {
                    assert(s.subrange(0, p.len() as int) =~= s.take(p.len() as int));
                } else {
                    assert(s.drop_first().subrange(k - 1, k - 1 + p.len()) =~= s.subrange(
                        k,
                        k + p.len() as int,
                    ));
                }
            }
        }
    }
}

proof fn lemma_find_sub_at(s: Seq<char>, p: Seq<char>, k: int)
    requires
        0 <= k <= s.len() - p.len(),
        s.subrange(k, k + p.len() as int) == p,
        forall|j: int| 0 <= j < k ==> #[trigger] s.subrange(j, j + p.len() as int) != p,
    ensures
        find_sub(s, p) == k,
    decreases k,
{
    if k == 0 {
        assert(s.take(p.len() as int) =~= s.subrange(0, p.len() as int));
    } else {
        assert(s.subrange(0, 0 + p.len() as int) != p);
        assert(s.take(p.len() as int) =~= s.subrange(0, 0 + p.len() as int));
        assert(s.take(p.len() as int) != p);
        assert forall|j: int| 0 <= j < k - 1 implies #[trigger] s.drop_first().subrange(
            j,
            j + p.len() as int,
        ) != p by {
            assert(s.drop_first().subrange(j, j + p.len() as int) =~= s.subrange(
                j + 1,
                j + 1 + p.len() as int,
            ));
        }
        assert(s.drop_first().subrange(k - 1, k - 1 + p.len() as int) =~= s.subrange(
            k,
            k + p.len() as int,
        ));
        lemma_find_sub_at(s.drop_first(), p, k - 1);
    }
}

/// Whether `p` occurs in `s` starting at position `at`.
fn match_at(s: &str, at: usize, p: &str) -> (r: bool)
    requires
        at + p@.len() <= s@.len(),
    ensures
        r == (s@.subrange(at as int, at + p@.len()) == p@),
{
    let sl = s.unicode_len();
    let pl = p.unicode_len();
    let mut i: usize = 0;
    while i < pl
        invariant
            i <= pl,
            sl == s@.len(),
            pl == p@.len(),
            at + pl <= sl,
            forall|j: int| 0 <= j < i ==> s@[at + j] == p@[j],
        decreases pl - i,
    {
        if s.get_char(at + i) != p.get_char(i) {
            assert(s@.subrange(at as int, at + pl)[i as int] != p@[i as int]);
            return false;
        }
        i = i + 1;
    }
    assert(s@.subrange(at as int, at + pl) =~= p@);
    true
}

/// Position of the first occurrence of `p` in `s`, if any.
pub fn find_sub_str(s: &str, p: &str) -> (r: Option<usize>)
    ensures
        match r {
            Some(k) => find_sub(s@, p@) == k,
            None => find_sub(s@, p@) < 0,
        },
{
    let sl = s.unicode_len();
    let pl = p.unicode_len();
    if pl > sl {
        return None;
    }
    if pl == 0 {
        proof {
            assert(s@.take(0) =~= p@);
        }
        return Some(0);
    }
    let mut k: usize = 0;
    while k <= sl - pl
        invariant
            0 < pl <= sl,
            k <= sl - pl + 1,
            sl == s@.len(),
            pl == p@.len(),
            forall|j: int| 0 <= j < k ==> #[trigger] s@.subrange(j, j + pl) != p@,
        decreases sl - k,
    {
        if match_at(s, k, p) {
            proof {
                lemma_find_sub_at(s@, p@, k as int);
            }
            return Some(k);
        }
        k = k + 1;
    }
    proof {
        lemma_find_sub(s@, p@);
        if find_sub(s@, p@) >= 0 {
            assert(s@.subrange(find_sub(s@, p@), find_sub(s@, p@) + p@.len()) == p@);
        }
    }
    None
}

/// Whether some element of `v` holds the characters of `p`.
pub fn contains_path(v: &Vec<String>, p: &str) -> (r: bool)
    ensures
        r == views(v@).contains(p@),
{
    let n = v.len();
    let mut i: usize = 0;
    while i < n
        invariant
            i <= n,
            n == v@.len(),
            forall|j: int| 0 <= j < i ==> views(v@)[j] != p@,
        decreases n - i,
    {
        if str_eq(v[i].as_str(), p) {
            assert(views(v@)[i as int] == p@);
            return true;
        }
        i = i + 1;
    }
    assert(!views(v@).contains(p@));
    false
}

/// A copy of `v` with the same characters in each element.
pub fn clone_paths(v: &Vec<String>) -> (r: Vec<String>)
    ensures
        views(r@) == views(v@),
{
    let n = v.len();
    let mut out: Vec<String> = Vec::new();
    let mut i: usize = 0;
    proof {
        assert(views(out@) =~= views(v@).take(0));
    }
    while i < n
        invariant
            i <= n,
            n == v@.len(),
            views(out@) == views(v@).take(i as int),
        decreases n - i,
    {
        proof {
            assert(views(out@.push(v@[i as int])) =~= views(out@).push(v@[i as int]@));
            assert(views(v@).take(i + 1).drop_last() =~= views(v@).take(i as int));
            assert(views(v@).take(i + 1) =~= views(v@).take(i as int).push(v@[i as int]@));
        }
        let x = v[i].clone();
        out.push(x);
        i = i + 1;
    }
    proof {
        assert(views(v@).take(n as int) =~= views(v@));
    }
    out
}

/// Whether `c` occurs in `s`.
pub open spec fn contains_char(s: Seq<char>, c: char) -> bool {
    exists|i: int| 0 <= i < s.len() && s[i] == c
}

/// Index of the last occurrence of `c` in `s`, or -1 if there is none.
pub open spec fn rfind_ch(s: Seq<char>, c: char) -> int
    decreases s.len(),
{
    if s.len() == 0 {
        -1
    } else if s.last() == c {
        s.len() - 1
    } else {
        rfind_ch(s.drop_last(), c)
    }
}

pub proof fn lemma_rfind_ch(s: Seq<char>, c: char)
    ensures
        -1 <= rfind_ch(s, c) < s.len(),
        rfind_ch(s, c) >= 0 ==> s[rfind_ch(s, c)] == c,
        forall|j: int| rfind_ch(s, c) < j < s.len() ==> s[j] != c,
    decreases s.len(),
{
    if s.len() > 0 && s.last() != c {
        lemma_rfind_ch(s.drop_last(), c);
        assert forall|j: int| rfind_ch(s, c) < j < s.len() implies s[j] != c by {
            if j < s.len() - 1 {
                assert(s.drop_last()[j] != c);
            }
        }
    }
}

proof fn lemma_rfind_ch_at(s: Seq<char>, c: char, k: int)
    requires
        -1 <= k < s.len(),
        k >= 0 ==> s[k] == c,
        forall|j: int| k < j < s.len() ==> s[j] != c,
    ensures
        rfind_ch(s, c) == k,
    decreases s.len(),
{
    if s.len() > 0 && s.last() != c {
        lemma_rfind_ch_at(s.drop_last(), c, k);
    }
}

/// Position of the last occurrence of `c` in `s`, if any.
pub fn rfind_char(s: &str, c: char) -> (r: Option<usize>)
    ensures
        match r {
            Some(k) => rfind_ch(s@, c) == k,
            None => rfind_ch(s@, c) == -1,
        },
{
    let n = s.unicode_len();
    let mut i: usize = n;
    while i > 0
        invariant
            i <= n,
            n == s@.len(),
            forall|j: int| i <= j < n ==> s@[j] != c,
        decreases i,
    {
        i = i - 1;
        if s.get_char(i) == c {
            proof {
                lemma_rfind_ch_at(s@, c, i as int);
            }
            return Some(i);
        }
    }
    proof {
        lemma_rfind_ch_at(s@, c, -1);
    }
    None
}

pub open spec fn is_digit(c: char) -> bool {
    48 <= c as u32 <= 57
}

pub open spec fn digit_val(c: char) -> int {
    c as u32 - 48
}

pub open spec fn all_digits(s: Seq<char>) -> bool {
    forall|j: int| 0 <= j < s.len() ==> is_digit(#[trigger] s[j])
}

/// The numeric value of a sequence of decimal digits.
pub open spec fn dec_val(s: Seq<char>) -> int
    decreases s.len(),
{
    if s.len() == 0 {
        0
    } else {
        dec_val(s.drop_last()) * 10 + digit_val(s.last())
    }
}

proof fn lemma_dec_val_nonneg(s: Seq<char>)
    requires
        all_digits(s),
    ensures
        dec_val(s) >= 0,
    decreases s.len(),
{
    if s.len() > 0 {
        lemma_dec_val_nonneg(s.drop_last());
    }
}

proof fn lemma_dec_val_grows(s: Seq<char>, i: int)
    requires
        all_digits(s),
        0 <= i <= s.len(),
    ensures
        dec_val(s) >= dec_val(s.take(i)),
    decreases s.len(),
{
    if i < s.len() {
        lemma_dec_val_grows(s.drop_last(), i);
        assert(s.drop_last().take(i) =~= s.take(i));
        lemma_dec_val_nonneg(s.drop_last());
    } else {
        assert(s.take(i) =~= s);
    }
}

/// The value a string denotes as a decimal number fitting in `u8`:
/// all characters must be digits and the value must be at most 255.
pub open spec fn spec_parse_u8(s: Seq<char>) -> Option<u8> {
    if s.len() > 0 && all_digits(s) && dec_val(s) <= 255 {
        Some(dec_val(s) as u8)
    } else {
        None
    }
}

/// Parses a decimal number fitting in `u8`.
pub fn parse_u8(s: &str) -> (r: Option<u8>)
    ensures
        r == spec_parse_u8(s@),
{
    let n = s.unicode_len();
    if n == 0 {
        return None;
    }
    let mut acc: u32 = 0;
    let mut i: usize = 0;
    while i < n
        invariant
            i <= n,
            n == s@.len(),
            acc <= 255,
            all_digits(s@.take(i as int)),
            acc == dec_val(s@.take(i as int)),
        decreases n - i,
    {
        let c = s.get_char(i);
        let u = c as u32;
        if u < 48 || u > 57 {
            assert(!is_digit(s@[i as int]));
            return None;
        }
        proof {
            assert(s@.take(i + 1).drop_last() =~= s@.take(i as int));
            assert(s@.take(i + 1).last() == s@[i as int]);
        }
        acc = acc * 10 + (u - 48);
        i = i + 1;
        if acc > 255 {
            proof {
                if all_digits(s@) {
                    lemma_dec_val_grows(s@, i as int);
                    assert(s@.take(n as int) =~= s@);
                    assert(dec_val(s@) > 255);
                }
            }
            return None;
        }
    }
    assert(s@.take(n as int) =~= s@);
    Some(acc as u8)
}

pub open spec fn digit_char(d: int) -> char {
    if d == 0 {
        '0'
    } else if d == 1 {
        '1'
    } else if d == 2 {
        '2'
    } else if d == 3 {
        '3'
    } else if d == 4 {
        '4'
    } else if d == 5 {
        '5'
    } else if d == 6 {
        '6'
    } else if d == 7 {
        '7'
    } else if d == 8 {
        '8'
    } else {
        '9'
    }
}

/// The decimal digits of a non-negative number, most significant first.
pub open spec fn dec_str(n: int) -> Seq<char>
    decreases n,
{
    if n < 10 {
        seq![digit_char(n)]
    } else {
        dec_str(n / 10).push(digit_char(n % 10))
    }
}

fn digit_str(d: u64) -> (r: &'static str)
    requires
        d < 10,
    ensures
        r@ =~= seq![digit_char(d as int)],
{
    proof {
        reveal_strlit("0");
        reveal_strlit("1");
        reveal_strlit("2");
        reveal_strlit("3");
        reveal_strlit("4");
        reveal_strlit("5");
        reveal_strlit("6");
        reveal_strlit("7");
        reveal_strlit("8");
        reveal_strlit("9");
    }
    if d == 0 {
        "0"
    } else if d == 1 {
        "1"
    } else if d == 2 {
        "2"
    } else if d == 3 {
        "3"
    } else if d == 4 {
        "4"
    } else if d == 5 {
        "5"
    } else if d == 6 {
        "6"
    } else if d == 7 {
        "7"
    } else if d == 8 {
        "8"
    } else {
        "9"
    }
}

/// Non-strictly ascending in lexicographic order.
pub open spec fn sorted_lex(s: Seq<Seq<char>>) -> bool {
    forall|i: int, j: int| 0 <= i < j < s.len() ==> lex_le(#[trigger] s[i], #[trigger] s[j])
}

/// Strictly ascending in lexicographic order: sorted and duplicate-free.
pub open spec fn strict_sorted_lex(s: Seq<Seq<char>>) -> bool {
    forall|i: int, j: int|
        0 <= i < j < s.len() ==> lex_le(#[trigger] s[i], #[trigger] s[j]) && s[i] != s[j]
}

/// `x` inserted behind every element at or before it.
pub open spec fn insert_lex(s: Seq<Seq<char>>, x: Seq<char>) -> Seq<Seq<char>>
    decreases s.len(),
{
    if s.len() == 0 {
        seq![x]
    } else if lex_le(s.last(), x) {
        s.push(x)
    } else {
        insert_lex(s.drop_last(), x).push(s.last())
    }
}

/// Insertion sort in lexicographic order.
pub open spec fn sort_lex(s: Seq<Seq<char>>) -> Seq<Seq<char>>
    decreases s.len(),
{
    if s.len() == 0 {
        s
    } else {
        insert_lex(sort_lex(s.drop_last()), s.last())
    }
}

/// Inserting keeps the members and adds `x`; a sorted sequence stays
/// sorted.
proof fn lemma_insert_lex(s: Seq<Seq<char>>, x: Seq<char>)
    ensures
        forall|p: Seq<char>|
            #[trigger] insert_lex(s, x).contains(p) <==> s.contains(p) || p == x,
        sorted_lex(s) ==> sorted_lex(insert_lex(s, x)),
        insert_lex(s, x).len() == s.len() + 1,
    decreases s.len(),
{
    let r = insert_lex(s, x);
    if s.len() == 0 {
        assert forall|p: Seq<char>| #[trigger] r.contains(p) implies s.contains(p) || p == x by {
            let i = choose|i: int| 0 <= i < r.len() && r[i] == p;
        }
        assert(r[0] == x);
        assert(r.contains(x));
    } else if lex_le(s.last(), x) {
        assert forall|p: Seq<char>| #[trigger] r.contains(p) implies s.contains(p) || p == x by {
            let i = choose|i: int| 0 <= i < r.len() && r[i] == p;
            if i < s.len() {
                assert(s[i] == p);
            }
        }
        assert forall|p: Seq<char>| s.contains(p) || p == x implies #[trigger] r.contains(p) by {
            if s.contains(p) {
                let i = choose|i: int| 0 <= i < s.len() && s[i] == p;
                assert(r[i] == p);
            } else {
                assert(r.last() == x);
            }
        }
        if sorted_lex(s) {
            assert forall|i: int, j: int| 0 <= i < j < r.len() implies lex_le(
                #[trigger] r[i],
                #[trigger] r[j],
            ) by {
                if j == r.len() - 1 {
                    if i < s.len() - 1 {
                        lemma_lex_le_trans(s[i], s.last(), x);
                    }
                } else {
                    assert(lex_le(s[i], s[j]));
                }
            }
        }
    } else {
        lemma_insert_lex(s.drop_last(), x);
        lemma_lex_le_total(s.last(), x);
        let q = insert_lex(s.drop_last(), x);
        assert forall|p: Seq<char>| #[trigger] r.contains(p) implies s.contains(p) || p == x by {
            let i = choose|i: int| 0 <= i < r.len() && r[i] == p;
            if i < q.len() {
                assert(q[i] == p);
                assert(q.contains(p));
                if s.drop_last().contains(p) {
                    let k = choose|k: int|
                        0 <= k < s.drop_last().len() && s.drop_last()[k] == p;
                    assert(s[k] == p);
                }
            } else {
                assert(p == s.last());
                assert(s.contains(s.last()));
            }
        }
        assert forall|p: Seq<char>| s.contains(p) || p == x implies #[trigger] r.contains(p) by {
            if p == x || s.drop_last().contains(p) {
                assert(q.contains(p));
                let i = choose|i: int| 0 <= i < q.len() && q[i] == p;
                assert(r[i] == p);
            } else {
                let k = choose|k: int| 0 <= k < s.len() && s[k] == p;
                if k < s.len() - 1 {
                    assert(s.drop_last()[k] == p);
                    assert(s.drop_last().contains(p));
                    assert(q.contains(p));
                    let i = choose|i: int| 0 <= i < q.len() && q[i] == p;
                    assert(r[i] == p);
                } else {
                    assert(r.last() == s.last());
                }
            }
        }
        if sorted_lex(s) {
            assert(sorted_lex(s.drop_last())) by {
                assert forall|i: int, j: int| 0 <= i < j < s.drop_last().len() implies lex_le(
                    #[trigger] s.drop_last()[i],
                    #[trigger] s.drop_last()[j],
                ) by {
                    assert(lex_le(s[i], s[j]));
                }
            }
            assert forall|i: int, j: int| 0 <= i < j < r.len() implies lex_le(
                #[trigger] r[i],
                #[trigger] r[j],
            ) by {
                if j == r.len() - 1 {
                    // everything in the inserted prefix is at or below the old last
                    assert(r[i] == q[i]);
                    assert(q.contains(q[i]));
                    if s.drop_last().contains(q[i]) {
                        let k = choose|k: int|
                            0 <= k < s.drop_last().len() && s.drop_last()[k] == q[i];
                        assert(lex_le(s[k], s.last()));
                        assert(lex_le(r[i], r[j]));
                    } else {
                        assert(q[i] == x);
                        assert(lex_le(x, s.last()));
                    }
                } else {
                    assert(lex_le(q[i], q[j]));
                }
            }
        }
    }
}

/// Sorting keeps exactly the members and yields a sorted sequence.
pub proof fn lemma_sort_lex(s: Seq<Seq<char>>)
    ensures
        sorted_lex(sort_lex(s)),
        forall|p: Seq<char>| #[trigger] sort_lex(s).contains(p) <==> s.contains(p),
        sort_lex(s).len() == s.len(),
    decreases s.len(),
{
    if s.len() > 0 {
        lemma_sort_lex(s.drop_last());
        lemma_insert_lex(sort_lex(s.drop_last()), s.last());
        assert forall|p: Seq<char>| #[trigger] sort_lex(s).contains(p) implies s.contains(p) by {
            if s.drop_last().contains(p) {
                let k = choose|k: int| 0 <= k < s.drop_last().len() && s.drop_last()[k] == p;
                assert(s[k] == p);
            } else {
                assert(p == s.last());
                assert(s[s.len() - 1] == p);
            }
        }
        assert forall|p: Seq<char>| s.contains(p) implies #[trigger] sort_lex(s).contains(p) by {
            let k = choose|k: int| 0 <= k < s.len() && s[k] == p;
            if k < s.len() - 1 {
                assert(s.drop_last()[k] == p);
                assert(s.drop_last().contains(p));
            }
        }
    }
}

/// Adjacent duplicates dropped; on sorted input this removes every
/// duplicate.
pub open spec fn spec_dedup(s: Seq<Seq<char>>) -> Seq<Seq<char>>
    decreases s.len(),
{
    if s.len() == 0 {
        s
    } else {
        let r = spec_dedup(s.drop_last());
        if r.len() > 0 && r.last() == s.last() {
            r
        } else {
            r.push(s.last())
        }
    }
}

/// On sorted input, deduplication yields a strictly sorted sequence with
/// the same members, ending where the input ends.
pub proof fn lemma_dedup(s: Seq<Seq<char>>)
    requires
        sorted_lex(s),
    ensures
        strict_sorted_lex(spec_dedup(s)),
        forall|p: Seq<char>| #[trigger] spec_dedup(s).contains(p) <==> s.contains(p),
        s.len() > 0 ==> spec_dedup(s).len() > 0 && spec_dedup(s).last() == s.last(),
    decreases s.len(),
{
    if s.len() > 0 {
        assert(sorted_lex(s.drop_last())) by {
            assert forall|i: int, j: int| 0 <= i < j < s.drop_last().len() implies lex_le(
                #[trigger] s.drop_last()[i],
                #[trigger] s.drop_last()[j],
            ) by {
                assert(lex_le(s[i], s[j]));
            }
        }
        lemma_dedup(s.drop_last());
        let r = spec_dedup(s.drop_last());
        let d = spec_dedup(s);
        assert forall|p: Seq<char>| #[trigger] d.contains(p) implies s.contains(p) by {
            let i = choose|i: int| 0 <= i < d.len() && d[i] == p;
            if i < r.len() {
                assert(r[i] == p);
                assert(r.contains(p));
                let k = choose|k: int| 0 <= k < s.drop_last().len() && s.drop_last()[k] == p;
                assert(s[k] == p);
            } else {
                assert(p == s.last());
                assert(s[s.len() - 1] == p);
            }
        }
        assert forall|p: Seq<char>| s.contains(p) implies #[trigger] d.contains(p) by {
            let k = choose|k: int| 0 <= k < s.len() && s[k] == p;
            if k < s.len() - 1 {
                assert(s.drop_last()[k] == p);
                assert(s.drop_last().contains(p));
                assert(r.contains(p));
                let i = choose|i: int| 0 <= i < r.len() && r[i] == p;
                if r.len() > 0 && r.last() == s.last() {
                    assert(d[i] == p);
                } else {
                    assert(d[i] == p);
                }
            } else {
                if r.len() > 0 && r.last() == s.last() {
                    assert(d.contains(p)) by {
                        assert(d.last() == s.last());
                    }
                } else {
                    assert(d.last() == s.last());
                }
            }
        }
        if !(r.len() > 0 && r.last() == s.last()) {
            assert forall|i: int, j: int| 0 <= i < j < d.len() implies lex_le(
                #[trigger] d[i],
                #[trigger] d[j],
            ) && d[i] != d[j] by {
                if j < r.len() {
                    assert(lex_le(r[i], r[j]) && r[i] != r[j]);
                } else {
                    assert(d[j] == s.last());
                    assert(r[i] == d[i]);
                    assert(r.contains(r[i]));
                    assert(s.drop_last().contains(r[i]));
                    let k = choose|k: int|
                        0 <= k < s.drop_last().len() && s.drop_last()[k] == r[i];
                    assert(lex_le(s[k], s.last()));
                    if i < r.len() - 1 {
                        // strictly below the old last, which is at or below the new one
                        assert(lex_le(r[i], r.last()) && r[i] != r.last());
                        if s.drop_last().len() > 0 {
                            assert(r.last() == s.drop_last().last());
                            assert(lex_le(r.last(), s.last()));
                            if d[i] == d[j] {
                                lemma_lex_le_antisymm(r[i], r.last());
                            }
                        }
                    } else {
                        // the old last differs from the new last here
                        assert(r[i] == r.last());
                    }
                }
            }
        }
    }
}

/// Two strictly sorted sequences with the same members are the same
/// sequence.
pub proof fn lemma_strict_sorted_unique(a: Seq<Seq<char>>, b: Seq<Seq<char>>)
    requires
        strict_sorted_lex(a),
        strict_sorted_lex(b),
        forall|p: Seq<char>| a.contains(p) <==> b.contains(p),
    ensures
        a == b,
    decreases a.len(),
{
    if a.len() == 0 {
        if b.len() > 0 {
            assert(b.contains(b.last()));
            assert(a.contains(b.last()));
        }
        assert(a =~= b);
    } else {
        assert(a.contains(a.last()));
        assert(b.contains(a.last()));
        assert(b.len() > 0);
        assert(a.contains(b.last()));
        // each last is the maximum of its sequence, so the lasts agree
        let i = choose|i: int| 0 <= i < b.len() && b[i] == a.last();
        let k = choose|k: int| 0 <= k < a.len() && a[k] == b.last();
        assert(lex_le(b[i], b.last()) || i == b.len() - 1);
        assert(lex_le(a[k], a.last()) || k == a.len() - 1);
        assert(a.last() == b.last()) by {
            if i < b.len() - 1 && k < a.len() - 1 {
                lemma_lex_le_antisymm(a.last(), b.last());
            }
        }
        assert forall|p: Seq<char>| a.drop_last().contains(p) implies b.drop_last().contains(
            p,
        ) by {
            let m = choose|m: int| 0 <= m < a.drop_last().len() && a.drop_last()[m] == p;
            assert(a[m] == p);
            assert(p != a.last());
            assert(b.contains(p));
            let j = choose|j: int| 0 <= j < b.len() && b[j] == p;
            assert(j < b.len() - 1);
            assert(b.drop_last()[j] == p);
        }
        assert forall|p: Seq<char>| b.drop_last().contains(p) implies a.drop_last().contains(
            p,
        ) by {
            let m = choose|m: int| 0 <= m < b.drop_last().len() && b.drop_last()[m] == p;
            assert(b[m] == p);
            assert(p != b.last());
            assert(a.contains(p));
            let j = choose|j: int| 0 <= j < a.len() && a[j] == p;
            assert(j < a.len() - 1);
            assert(a.drop_last()[j] == p);
        }
        assert(strict_sorted_lex(a.drop_last())) by {
            assert forall|i1: int, j1: int| 0 <= i1 < j1 < a.drop_last().len() implies lex_le(
                #[trigger] a.drop_last()[i1],
                #[trigger] a.drop_last()[j1],
            ) && a.drop_last()[i1] != a.drop_last()[j1] by {
                assert(lex_le(a[i1], a[j1]) && a[i1] != a[j1]);
            }
        }
        assert(strict_sorted_lex(b.drop_last())) by {
            assert forall|i1: int, j1: int| 0 <= i1 < j1 < b.drop_last().len() implies lex_le(
                #[trigger] b.drop_last()[i1],
                #[trigger] b.drop_last()[j1],
            ) && b.drop_last()[i1] != b.drop_last()[j1] by {
                assert(lex_le(b[i1], b[j1]) && b[i1] != b[j1]);
            }
        }
        lemma_strict_sorted_unique(a.drop_last(), b.drop_last());
        assert(a =~= a.drop_last().push(a.last()));
        assert(b =~= b.drop_last().push(b.last()));
    }
}

/// When `x` belongs at position `j`, inserting it there is what
/// `insert_lex` does.
proof fn lemma_insert_lex_at(s: Seq<Seq<char>>, x: Seq<char>, j: int)
    requires
        0 <= j <= s.len(),
        forall|k: int| j <= k < s.len() ==> !lex_le(#[trigger] s[k], x),
        j > 0 ==> lex_le(s[j - 1], x),
    ensures
        insert_lex(s, x) == s.insert(j, x),
    decreases s.len(),
{
    if j == s.len() {
        if s.len() == 0 {
            assert(insert_lex(s, x) =~= s.insert(0, x));
        } else {
            assert(insert_lex(s, x) =~= s.insert(j, x));
        }
    } else {
        assert(!lex_le(s.last(), x));
        lemma_insert_lex_at(s.drop_last(), x, j);
        assert(insert_lex(s, x) =~= s.insert(j, x));
    }
}

/// Inserts `x` into its place in lexicographic order.
fn insert_path_sorted(v: &mut Vec<String>, x: String)
    ensures
        views(final(v)@) == insert_lex(views(old(v)@), x@),
{
    let mut j: usize = v.len();
    while j > 0 && !str_le(v[j - 1].as_str(), x.as_str())
        invariant
            j <= v@.len(),
            *v == *old(v),
            forall|k: int| j <= k < v@.len() ==> !lex_le(views(v@)[k], x@),
        decreases j,
    {
        j = j - 1;
    }
    proof {
        lemma_insert_lex_at(views(v@), x@, j as int);
        assert(views(v@.insert(j as int, x)) =~= views(v@).insert(j as int, x@));
    }
    v.insert(j, x);
}

/// Sorts the paths in ascending lexicographic order, by insertion.
pub fn sort_paths(v: Vec<String>) -> (r: Vec<String>)
    ensures
        views(r@) == sort_lex(views(v@)),
{
    let ghost orig = views(v@);
    let mut out: Vec<String> = Vec::new();
    let mut rest = v;
    proof {
        assert(orig.take(0) =~= Seq::<Seq<char>>::empty());
        assert(views(out@) =~= sort_lex(orig.take(0)));
    }
    let count = rest.len();
    let mut i: usize = 0;
    while i < count
        invariant
            i <= count,
            count == rest@.len(),
            orig.len() == count,
            forall|k: int| i <= k < count ==> (#[trigger] rest@[k])@ == orig[k],
            views(out@) == sort_lex(orig.take(i as int)),
        decreases count - i,
    {
        proof {
            assert(orig.take(i + 1).drop_last() =~= orig.take(i as int));
            assert(orig.take(i + 1).last() == orig[i as int]);
        }
        let x = rest[i].clone();
        insert_path_sorted(&mut out, x);
        i = i + 1;
    }
    proof {
        assert(orig.take(count as int) =~= orig);
    }
    out
}

/// Removes adjacent duplicates.
pub fn dedup_paths(v: Vec<String>) -> (r: Vec<String>)
    ensures
        views(r@) == spec_dedup(views(v@)),
{
    let n = v.len();
    let mut out: Vec<String> = Vec::new();
    let mut i: usize = 0;
    proof {
        assert(views(v@).take(0) =~= Seq::<Seq<char>>::empty());
        assert(views(out@) =~= spec_dedup(views(v@).take(0)));
    }
    while i < n
        invariant
            i <= n,
            n == v@.len(),
            views(out@) == spec_dedup(views(v@).take(i as int)),
        decreases n - i,
    {
        proof {
            assert(views(v@).take(i + 1).drop_last() =~= views(v@).take(i as int));
            assert(views(v@).take(i + 1).last() == v@[i as int]@);
        }
        let keep: bool = if out.len() == 0 {
            true
        } else {
            !str_eq(out[out.len() - 1].as_str(), v[i].as_str())
        };
        if keep {
            proof {
                assert(views(out@.push(v@[i as int])) =~= views(out@).push(v@[i as int]@));
            }
            let x = v[i].clone();
            out.push(x);
        }
        i = i + 1;
    }
    proof {
        assert(views(v@).take(n as int) =~= views(v@));
    }
    out
}

/// The decimal rendering of `n`.
pub fn u64_to_string(n: u64) -> (r: String)
    ensures
        r@ == dec_str(n as int),
    decreases n,
{
    if n < 10 {
        digit_str(n).to_owned()
    } else {
        let mut s = u64_to_string(n / 10);
        s.append(digit_str(n % 10));
        proof {
            assert(dec_str((n / 10) as int) + seq![digit_char(n as int % 10)] =~= dec_str(
                (n / 10) as int,
            ).push(digit_char(n as int % 10)));
        }
        s
    }
}

} // verus!
