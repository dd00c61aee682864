//! Text handling for the frontend: media types, schema references, version strings
//! and status labels.

use vstd::prelude::*;

verus! {

/// Appends one character (std's `String::push`).
#[verifier::external_body]
pub(crate) fn push_char(s: &mut String, c: char)
    ensures
        final(s)@ == old(s)@.push(c),
{
    s.push(c)
}

/// The characters of a string slice, in order.
pub(crate) fn chars_of(s: &str) -> (r: Vec<char>)
    ensures
        r@ == s@,
{
    let n = s.unicode_len();
    let mut out: Vec<char> = Vec::new();
    let mut i: usize = 0;
    while i < n
        invariant
            i <= n,
            n == s@.len(),
            out@ == s@.subrange(0, i as int),
        decreases n - i,
    {
        out.push(s.get_char(i));
        proof {
            assert(s@.subrange(0, i + 1) =~= s@.subrange(0, i as int).push(s@[i as int]));
        }
        i = i + 1;
    }
    proof {
        assert(s@.subrange(0, n as int) =~= s@);
    }
    out
}

/// A string of the given characters.
pub(crate) fn string_of(chars: &Vec<char>) -> (r: String)
    ensures
        r@ == chars@,
{
    let mut out = String::new();
    let mut i: usize = 0;
    while i < chars.len()
        invariant
            i <= chars.len(),
            out@ == chars@.subrange(0, i as int),
        decreases chars.len() - i,
    {
        push_char(&mut out, chars[i]);
        proof {
            assert(chars@.subrange(0, i + 1) =~= chars@.subrange(0, i as int).push(chars@[i as int]));
        }
        i = i + 1;
    }
    proof {
        assert(chars@.subrange(0, chars@.len() as int) =~= chars@);
    }
    out
}

/// ASCII lower case of one character.
pub open spec fn lower_char(c: char) -> char {
    if 'A' <= c && c <= 'Z' {
        ((c as u32) + 32) as char
    } else {
        c
    }
}

/// ASCII lower case of a text.
pub open spec fn lower(s: Seq<char>) -> Seq<char> {
    s.map_values(|c: char| lower_char(c))
}

fn lower_char_exec(c: char) -> (r: char)
    ensures
        r == lower_char(c),
{
    if 'A' <= c && c <= 'Z' {
        let b = (c as u8) + 32;
        b as char
    } else {
        c
    }
}

/// The ASCII lower case of `s`.
pub fn ascii_lowercase(s: &str) -> (r: String)
    ensures
        r@ == lower(s@),
{
    let cs = chars_of(s);
    let mut out = String::new();
    let mut i: usize = 0;
    while i < cs.len()
        invariant
            i <= cs.len(),
            cs@ == s@,
            out@ == lower(s@.subrange(0, i as int)),
        decreases cs.len() - i,
    {
        let ghost before = out@;
        push_char(&mut out, lower_char_exec(cs[i]));
        proof {
            assert(lower(s@.subrange(0, i + 1)) =~= before.push(lower_char(s@[i as int])));
        }
        i = i + 1;
    }
    proof {
        assert(s@.subrange(0, s@.len() as int) =~= s@);
    }
    out
}

/// Whether two texts are equal up to ASCII case.
pub fn eq_ignore_ascii_case(a: &str, b: &str) -> (r: bool)
    ensures
        r == (lower(a@) == lower(b@)),
{
    let la = ascii_lowercase(a);
    let lb = ascii_lowercase(b);
    la == lb
}

/// The position of the first `c` in `s`, or its length where there is none.
pub open spec fn first_index(s: Seq<char>, c: char) -> nat
    decreases s.len(),
{
    if s.len() == 0 {
        0
    } else if s[0] == c {
        0
    } else {
        1 + first_index(s.drop_first(), c)
    }
}

/// Whether a character is a space or a tab.
pub open spec fn is_blank(c: char) -> bool {
    c == ' ' || c == '\t'
}

/// `s` without its leading spaces and tabs.
pub open spec fn trim_start(s: Seq<char>) -> Seq<char>
    decreases s.len(),
{
    if s.len() > 0 && is_blank(s[0]) {
        trim_start(s.drop_first())
    } else {
        s
    }
}

/// `s` without its trailing spaces and tabs.
pub open spec fn trim_end(s: Seq<char>) -> Seq<char>
    decreases s.len(),
{
    if s.len() > 0 && is_blank(s.last()) {
        trim_end(s.drop_last())
    } else {
        s
    }
}

/// Whether `s` starts with `p`.
pub open spec fn starts_with(s: Seq<char>, p: Seq<char>) -> bool {
    s.len() >= p.len() && s.subrange(0, p.len() as int) == p
}

/// Whether `s` ends with `p`.
pub open spec fn ends_with(s: Seq<char>, p: Seq<char>) -> bool {
    s.len() >= p.len() && s.subrange(s.len() - p.len(), s.len() as int) == p
}

/// The essence of a content type: what precedes its parameters (`;`), without
/// surrounding blanks, in lower case.
pub open spec fn media_essence(ct: Seq<char>) -> Seq<char> {
    lower(trim_end(trim_start(ct.subrange(0, first_index(ct, ';') as int))))
}

/// Whether a content type is JSON: `application/json` or a `+json` suffix, whatever
/// its parameters and ASCII case.
pub open spec fn is_json_media(ct: Seq<char>) -> bool {
    media_essence(ct) == "application/json"@ || ends_with(media_essence(ct), "+json"@)
}

/// The essence of a content type (see [`media_essence`]).
pub fn media_essence_of(ct: &str) -> (r: String)
    ensures
        r@ == media_essence(ct@),
{
    let cs = chars_of(ct);
    let n = cs.len();
    let ghost s = ct@;
    let mut k: usize = 0;
    proof {
        assert(s.subrange(0, n as int) =~= s);
    }
    while k < n && cs[k] != ';'
        invariant
            k <= n,
            n == s.len(),
            cs@ == s,
            first_index(s, ';') == k + first_index(s.subrange(k as int, n as int), ';'),
        decreases n - k,
    {
        proof {
            assert(s.subrange(k as int, n as int).drop_first() =~= s.subrange(k + 1, n as int));
        }
        k = k + 1;
    }
    proof {
        if k < n {
            assert(s.subrange(k as int, n as int)[0] == ';');
        }
    }
    let ghost pre = s.subrange(0, k as int);
    let mut a: usize = 0;
    proof {
        assert(pre.subrange(0, k as int) =~= pre);
    }
    while a < k && (cs[a] == ' ' || cs[a] == '\t')
        invariant
            a <= k,
            k <= n,
            n == s.len(),
            cs@ == s,
            pre == s.subrange(0, k as int),
            trim_start(pre) == trim_start(pre.subrange(a as int, k as int)),
        decreases k - a,
    {
        proof {
            assert(pre.subrange(a as int, k as int).drop_first() =~= pre.subrange(a + 1, k as int));
        }
        a = a + 1;
    }
    let ghost mid = pre.subrange(a as int, k as int);
    let mut b: usize = k;
    proof {
        assert(mid.subrange(0, (k - a) as int) =~= mid);
    }
    while b > a && (cs[b - 1] == ' ' || cs[b - 1] == '\t')
        invariant
            a <= b <= k,
            k <= n,
            n == s.len(),
            cs@ == s,
            pre == s.subrange(0, k as int),
            mid == pre.subrange(a as int, k as int),
            trim_end(mid) == trim_end(mid.subrange(0, (b - a) as int)),
        decreases b - a,
    {
        proof {
            assert(mid.subrange(0, (b - a) as int).drop_last() =~= mid.subrange(0, (b - 1 - a) as int));
        }
        b = b - 1;
    }
    proof {
        assert(trim_start(pre) == mid);
        assert(trim_end(mid) == mid.subrange(0, (b - a) as int));
        assert(mid.subrange(0, (b - a) as int) =~= s.subrange(a as int, b as int));
    }
    let core = ct.substring_char(a, b);
    ascii_lowercase(core)
}

/// Whether `s` ends with `p`.
fn ends_with_exec(s: &str, p: &str) -> (r: bool)
    ensures
        r == ends_with(s@, p@),
{
    let n = s.unicode_len();
    let m = p.unicode_len();
    if n < m {
        return false;
    }
    let tail = String::from_str(s.substring_char(n - m, n));
    let pat = String::from_str(p);
    tail == pat
}

/// Whether a content type is JSON (see [`is_json_media`]).
pub fn is_json_media_type(ct: &str) -> (r: bool)
    ensures
        r == is_json_media(ct@),
{
    let e = media_essence_of(ct);
    let json = String::from_str("application/json");
    if e == json {
        return true;
    }
    ends_with_exec(e.as_str(), "+json")
}

/// The prefix of a reference to a named schema.
pub open spec fn schema_ref_prefix() -> Seq<char> {
    "#/components/schemas/"@
}

/// Undoes the JSON Pointer escapes of a name: `~1` stands for `/` and `~0` for `~`;
/// every other character, a lone `~` included, stands for itself.
pub open spec fn unescape(s: Seq<char>) -> Seq<char>
    decreases s.len(),
{
    if s.len() == 0 {
        Seq::empty()
    } else if s[0] == '~' && s.len() >= 2 && (s[1] == '0' || s[1] == '1') {
        seq![if s[1] == '0' { '~' } else { '/' }] + unescape(s.subrange(2, s.len() as int))
    } else {
        seq![s[0]] + unescape(s.drop_first())
    }
}

/// The schema name a `$ref` names: `#/components/schemas/<name>` with a non-empty
/// `<name>`, JSON Pointer escapes undone; `None` for any other reference.
pub open spec fn schema_ref_name(r: Seq<char>) -> Option<Seq<char>> {
    let p = schema_ref_prefix();
    if starts_with(r, p) && r.len() > p.len() {
        Some(unescape(r.subrange(p.len() as int, r.len() as int)))
    } else {
        None
    }
}

/// The schema name a `$ref` names (see [`schema_ref_name`]).
pub fn schema_ref_target(reference: &str) -> (r: Option<String>)
    ensures
        match r {
            Some(name) => schema_ref_name(reference@) == Some(name@),
            None => schema_ref_name(reference@) is None,
        },
{
    let prefix = "#/components/schemas/";
    let n = reference.unicode_len();
    let m = prefix.unicode_len();
    if n <= m {
        return None;
    }
    let head = String::from_str(reference.substring_char(0, m));
    let pat = String::from_str(prefix);
    if head != pat {
        return None;
    }
    let cs = chars_of(reference);
    let ghost s = reference@.subrange(m as int, n as int);
    let mut out: Vec<char> = Vec::new();
    let mut i: usize = m;
    proof {
        assert(reference@.subrange(m as int, n as int) =~= s);
        assert(out@ + unescape(s) =~= unescape(s));
        assert(starts_with(reference@, schema_ref_prefix()));
    }
    while i < n
        invariant
            m <= i <= n,
            n == reference@.len(),
            cs@ == reference@,
            s == reference@.subrange(m as int, n as int),
            schema_ref_name(reference@) == Some(unescape(s)),
            unescape(s) == out@ + unescape(reference@.subrange(i as int, n as int)),
        decreases n - i,
    {
        let ghost rest = reference@.subrange(i as int, n as int);
        let ghost before = out@;
        let c = cs[i];
        proof {
            assert(rest[0] == c);
        }
        if c == '~' && i + 1 < n && (cs[i + 1] == '0' || cs[i + 1] == '1') {
            if cs[i + 1] == '0' {
                out.push('~');
            } else {
                out.push('/');
            }
            proof {
                assert(rest[1] == cs@[i + 1]);
                assert(rest.subrange(2, rest.len() as int) =~= reference@.subrange(i + 2, n as int));
                assert(before + (seq![out@.last()] + unescape(reference@.subrange(i + 2, n as int))) =~= out@
                    + unescape(reference@.subrange(i + 2, n as int)));
            }
            i = i + 2;
        } else {
            out.push(c);
            proof {
                if i + 1 < n {
                    assert(rest[1] == cs@[i + 1]);
                }
                assert(rest.drop_first() =~= reference@.subrange(i + 1, n as int));
                assert(before + (seq![c] + unescape(reference@.subrange(i + 1, n as int))) =~= out@ + unescape(
                    reference@.subrange(i + 1, n as int),
                ));
            }
            i = i + 1;
        }
    }
    proof {
        assert(reference@.subrange(n as int, n as int).len() == 0);
        assert(out@ + Seq::<char>::empty() =~= out@);
    }
    Some(string_of(&out))
}

/// Whether a character is an ASCII digit.
pub open spec fn is_digit(c: char) -> bool {
    '0' <= c && c <= '9'
}

/// Whether `d` is one or more ASCII digits: the text of a non-negative integer.
pub open spec fn is_digits(d: Seq<char>) -> bool {
    &&& d.len() > 0
    &&& forall|i: int| 0 <= i < d.len() ==> is_digit(#[trigger] d[i])
}

/// Whether a version is `3.0.<patch>` with `<patch>` a non-negative integer written
/// in ASCII digits, of any size.
pub open spec fn is_supported_version(v: Seq<char>) -> bool {
    &&& v.len() >= 4
    &&& v[0] == '3'
    &&& v[1] == '.'
    &&& v[2] == '0'
    &&& v[3] == '.'
    &&& is_digits(v.subrange(4, v.len() as int))
}

/// Whether the document's `openapi` field is a version this frontend supports
/// (see [`is_supported_version`]).
pub fn supported_version(v: &str) -> (r: bool)
    ensures
        r == is_supported_version(v@),
{
    let cs = chars_of(v);
    let n = cs.len();
    if n <= 4 || cs[0] != '3' || cs[1] != '.' || cs[2] != '0' || cs[3] != '.' {
        proof {
            if n == 4 {
                assert(v@.subrange(4, 4).len() == 0);
            }
        }
        return false;
    }
    let ghost d = v@.subrange(4, n as int);
    let mut i: usize = 4;
    while i < n
        invariant
            4 <= i <= n,
            n == v@.len(),
            cs@ == v@,
            d == v@.subrange(4, n as int),
            forall|j: int| 0 <= j < i - 4 ==> is_digit(#[trigger] d[j]),
        decreases n - i,
    {
        let c = cs[i];
        if c < '0' || c > '9' {
            proof {
                assert(d[i - 4] == c);
            }
            return false;
        }
        proof {
            assert(d[i - 4] == c);
        }
        i = i + 1;
    }
    true
}

/// The ASCII digit for `d`, a value below ten.
pub open spec fn digit_char(d: nat) -> char {
    (('0' as u32) + d) as char
}

/// The decimal text of `n`.
pub open spec fn decimal(n: nat) -> Seq<char>
    decreases n,
{
    if n < 10 {
        seq![digit_char(n)]
    } else {
        decimal(n / 10).push(digit_char(n % 10))
    }
}

/// The decimal text of `n` (see [`decimal`]).
pub fn decimal_text(n: u16) -> (r: String)
    ensures
        r@ == decimal(n as nat),
    decreases n,
{
    let mut s = if n < 10 {
        String::new()
    } else {
        decimal_text(n / 10)
    };
    let d = (n % 10) as u8;
    let c = ((48u8) + d) as char;
    push_char(&mut s, c);
    proof {
        if n < 10 {
            assert(s@ =~= seq![c]);
        }
    }
    s
}

/// `parts` joined by `sep`.
pub open spec fn join(parts: Seq<Seq<char>>, sep: Seq<char>) -> Seq<char>
    decreases parts.len(),
{
    if parts.len() == 0 {
        Seq::empty()
    } else if parts.len() == 1 {
        parts[0]
    } else {
        join(parts.drop_last(), sep) + sep + parts.last()
    }
}

/// `parts` joined by `sep` (see [`join`]).
pub fn join_texts(parts: &Vec<String>, sep: &str) -> (r: String)
    ensures
        r@ == join(parts@.map_values(|p: String| p@), sep@),
{
    let ghost ps = parts@.map_values(|p: String| p@);
    let mut out = String::new();
    let mut i: usize = 0;
    proof {
        assert(ps.subrange(0, 0) =~= Seq::<Seq<char>>::empty());
    }
    while i < parts.len()
        invariant
            i <= parts.len(),
            ps == parts@.map_values(|p: String| p@),
            out@ == join(ps.subrange(0, i as int), sep@),
        decreases parts.len() - i,
    {
        let ghost sub = ps.subrange(0, i + 1);
        proof {
            assert(sub.drop_last() =~= ps.subrange(0, i as int));
            assert(sub.last() == parts@[i as int]@);
        }
        if i > 0 {
            out.append(sep);
        } else {
            proof {
                assert(ps.subrange(0, 0) =~= Seq::<Seq<char>>::empty());
                assert(out@ =~= Seq::<char>::empty());
            }
        }
        out.append(parts[i].as_str());
        proof {
            if i == 0 {
                assert(out@ =~= sub[0]);
            }
        }
        i = i + 1;
    }
    proof {
        assert(ps.subrange(0, parts@.len() as int) =~= ps);
    }
    out
}

/// `a` followed by `b`.
pub fn concat2(a: &str, b: &str) -> (r: String)
    ensures
        r@ == a@ + b@,
{
    let mut s = String::from_str(a);
    s.append(b);
    s
}

/// `a`, `b` and `c` in a row.
pub fn concat3(a: &str, b: &str, c: &str) -> (r: String)
    ensures
        r@ == a@ + b@ + c@,
{
    let mut s = String::from_str(a);
    s.append(b);
    s.append(c);
    s
}

} // verus!
