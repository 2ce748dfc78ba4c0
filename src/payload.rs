//! The token payload: the claims written as one compact JSON object,
//! `{"sub":"<uuid>","exp":<seconds>,"role":<"text"|null>,"permissions":["…",…]}`.
//!
//! Role and permission texts may hold any character: `"` and `\` are escaped
//! with a backslash and control characters as `\u00XX`, so every set of
//! claims has exactly one payload text.
use vstd::prelude::*;
use vstd::utf8::char_u32_cast;
use crate::claims::{Claims, ClaimsView, labels_view, role_view};

verus! {

// ---------------------------------------------------------------------------
// User ids as text
// ---------------------------------------------------------------------------

pub open spec fn hex_char(d: u128) -> char {
    if d < 10 {
        ((48 + d) as u8) as char
    } else {
        ((87 + d) as u8) as char
    }
}

/// The `k`-th hex digit of `v`, counted from the most significant one.
pub open spec fn nibble(v: u128, k: int) -> u128 {
    (v >> ((124 - 4 * k) as u128)) & 15
}

pub open spec fn is_hyphen_pos(i: int) -> bool {
    i == 8 || i == 13 || i == 18 || i == 23
}

/// How many hex digits come before position `i` of the hyphenated text.
pub open spec fn digit_index(i: int) -> int {
    if i <= 8 {
        i
    } else if i <= 13 {
        i - 1
    } else if i <= 18 {
        i - 2
    } else if i <= 23 {
        i - 3
    } else {
        i - 4
    }
}

/// The lower-case hyphenated text (8-4-4-4-12 hex digits) of the UUID with value `v`.
pub open spec fn uuid_text(v: u128) -> Seq<char> {
    Seq::new(
        36,
        |i: int|
            if is_hyphen_pos(i) {
                '-'
            } else {
                hex_char(nibble(v, digit_index(i)))
            },
    )
}

proof fn lemma_nibble_bound(v: u128, s: u128)
    ensures
        (v >> s) & 15 <= 15,
{
    assert((v >> s) & 15 <= 15) by (bit_vector);
}

/// The hyphenated text of a user id holds no quote.
pub proof fn lemma_uuid_text_plain(v: u128)
    ensures
        uuid_text(v).len() == 36,
        forall|i: int| 0 <= i < 36 ==> #[trigger] uuid_text(v)[i] != '"',
{
    assert forall|i: int| 0 <= i < 36 implies #[trigger] uuid_text(v)[i] != '"' by {
        if !is_hyphen_pos(i) {
            lemma_nibble_bound(v, (124 - 4 * digit_index(i)) as u128);
        }
    }
}

/// Writes the hyphenated text of a user id.
pub fn format_uuid(v: u128) -> (r: String)
    ensures
        r@ == uuid_text(v),
{
    let hex = "0123456789abcdef";
    proof {
        reveal_strlit("0123456789abcdef");
        reveal_strlit("-");
    }
    let mut out = String::new();
    let mut i: usize = 0;
    let mut k: usize = 0;
    while i < 36
        invariant
            i <= 36,
            k == digit_index(i as int),
            k <= 32,
            hex@ == "0123456789abcdef"@,
            out@ == uuid_text(v).take(i as int),
        decreases 36 - i,
    {
        if i == 8 || i == 13 || i == 18 || i == 23 {
            proof {
                reveal_strlit("-");
            }
            out.append("-");
        } else {
            let shift: u128 = (124 - 4 * k) as u128;
            let d: u128 = (v >> shift) & 15;
            proof {
                lemma_nibble_bound(v, shift);
                reveal_strlit("0123456789abcdef");
                assert(hex@[d as int] == hex_char(d)) by {
                    assert(d <= 15);
                    if d == 0 {} else if d == 1 {} else if d == 2 {} else if d == 3 {}
                    else if d == 4 {} else if d == 5 {} else if d == 6 {} else if d == 7 {}
                    else if d == 8 {} else if d == 9 {} else if d == 10 {} else if d == 11 {}
                    else if d == 12 {} else if d == 13 {} else if d == 14 {} else {}
                }
            }
            let s = hex.substring_char(d as usize, d as usize + 1);
            assert(s@ =~= seq![hex_char(d)]);
            out.append(s);
            k = k + 1;
        }
        i = i + 1;
        assert(out@ =~= uuid_text(v).take(i as int));
    }
    assert(uuid_text(v).take(36) =~= uuid_text(v));
    out
}

/// Relies on uuid::Uuid::parse_str: the hyphenated text of a UUID parses back to that UUID.
#[verifier::external_body]
fn parse_uuid(s: &str) -> (r: Option<u128>)
    ensures
        forall|v: u128| #[trigger] uuid_text(v) == s@ ==> r == Some(v),
{
    match uuid::Uuid::parse_str(s) {
        Ok(u) => Some(u.as_u128()),
        Err(_) => None,
    }
}

// ---------------------------------------------------------------------------
// The payload text
// ---------------------------------------------------------------------------

pub open spec fn quoted(s: Seq<char>) -> Seq<char> {
    seq!['"'] + s + seq!['"']
}

/// The JSON form of one character inside a string: `"` and `\` are escaped
/// with a backslash, control characters as `\u00XX`, any other character
/// stands for itself.
pub open spec fn escape_char(c: char) -> Seq<char> {
    if c == '"' {
        seq!['\\', '"']
    } else if c == '\\' {
        seq!['\\', '\\']
    } else if (c as u32) < 32 {
        seq!['\\', 'u', '0', '0', hex_char(((c as u32) / 16) as u128), hex_char(((c as u32) % 16) as u128)]
    } else {
        seq![c]
    }
}

/// The JSON form of a text inside a string, without the quotes.
pub open spec fn escaped(s: Seq<char>) -> Seq<char>
    decreases s.len(),
{
    if s.len() == 0 {
        Seq::empty()
    } else {
        escaped(s.drop_last()) + escape_char(s.last())
    }
}

/// A text as a JSON string.
pub open spec fn quoted_text(s: Seq<char>) -> Seq<char> {
    seq!['"'] + escaped(s) + seq!['"']
}

pub open spec fn digit_char(d: int) -> char {
    ((48 + d) as u8) as char
}

pub open spec fn is_digit(c: char) -> bool {
    '0' <= c <= '9'
}

/// Decimal digits of `n`, without leading zeros.
pub open spec fn decimal(n: nat) -> Seq<char>
    decreases n,
{
    if n < 10 {
        seq![digit_char(n as int)]
    } else {
        decimal(n / 10).push(digit_char((n % 10) as int))
    }
}

pub open spec fn role_json(role: Option<Seq<char>>) -> Seq<char> {
    match role {
        Some(r) => quoted_text(r),
        None => seq!['n', 'u', 'l', 'l'],
    }
}

/// The items of a JSON array of strings, without the brackets.
pub open spec fn list_json(items: Seq<Seq<char>>) -> Seq<char>
    decreases items.len(),
{
    if items.len() == 0 {
        Seq::empty()
    } else if items.len() == 1 {
        quoted_text(items[0])
    } else {
        list_json(items.drop_last()) + seq![','] + quoted_text(items.last())
    }
}

pub open spec fn claims_json(c: ClaimsView) -> Seq<char> {
    "{\"sub\":"@ + quoted(uuid_text(c.sub)) + ",\"exp\":"@ + decimal(c.exp as nat)
        + ",\"role\":"@ + role_json(c.role) + ",\"permissions\":["@ + list_json(c.permissions)
        + "]}"@
}

// ---------------------------------------------------------------------------
// Writing
// ---------------------------------------------------------------------------

fn append_decimal(out: &mut String, n: u64)
    ensures
        final(out)@ == old(out)@ + decimal(n as nat),
    decreases n,
{
    if n >= 10 {
        append_decimal(out, n / 10);
    }
    let d = (n % 10) as usize;
    let digits = "0123456789";
    proof {
        reveal_strlit("0123456789");
    }
    let s = digits.substring_char(d, d + 1);
    assert(s@ =~= seq![digit_char(d as int)]);
    out.append(s);
    assert(final(out)@ =~= old(out)@ + decimal(n as nat));
}

fn append_quoted(out: &mut String, s: &str)
    ensures
        final(out)@ == old(out)@ + quoted(s@),
{
    proof {
        reveal_strlit("\"");
    }
    out.append("\"");
    out.append(s);
    out.append("\"");
    assert(final(out)@ =~= old(out)@ + quoted(s@));
}

proof fn lemma_escaped_step(s: Seq<char>, k: int)
    requires
        0 <= k < s.len(),
    ensures
        escaped(s.take(k + 1)) == escaped(s.take(k)) + escape_char(s[k]),
{
    assert(s.take(k + 1).drop_last() =~= s.take(k));
}

/// The one-character text of a hex digit.
fn hex_digit_text(d: u128) -> (r: &'static str)
    requires
        d < 16,
    ensures
        r@ == seq![hex_char(d)],
{
    let hex = "0123456789abcdef";
    proof {
        reveal_strlit("0123456789abcdef");
        assert(hex@[d as int] == hex_char(d)) by {
            if d == 0 {} else if d == 1 {} else if d == 2 {} else if d == 3 {}
            else if d == 4 {} else if d == 5 {} else if d == 6 {} else if d == 7 {}
            else if d == 8 {} else if d == 9 {} else if d == 10 {} else if d == 11 {}
            else if d == 12 {} else if d == 13 {} else if d == 14 {} else {}
        }
    }
    let r = hex.substring_char(d as usize, d as usize + 1);
    assert(r@ =~= seq![hex_char(d)]);
    r
}

fn append_quoted_text(out: &mut String, s: &str)
    ensures
        final(out)@ == old(out)@ + quoted_text(s@),
{
    proof {
        reveal_strlit("\"");
        reveal_strlit("\\\"");
        reveal_strlit("\\\\");
        reveal_strlit("\\u00");
    }
    let ghost start = out@;
    out.append("\"");
    let n = s.unicode_len();
    let mut i: usize = 0;
    while i < n
        invariant
            n == s@.len(),
            i <= n,
            out@ == start + seq!['"'] + escaped(s@.take(i as int)),
        decreases n - i,
    {
        proof {
            lemma_escaped_step(s@, i as int);
            reveal_strlit("\\\"");
            reveal_strlit("\\\\");
            reveal_strlit("\\u00");
        }
        let c = s.get_char(i);
        if c == '"' {
            out.append("\\\"");
        } else if c == '\\' {
            out.append("\\\\");
        } else if (c as u32) < 32 {
            out.append("\\u00");
            out.append(hex_digit_text(((c as u32) / 16) as u128));
            out.append(hex_digit_text(((c as u32) % 16) as u128));
        } else {
            out.append(s.substring_char(i, i + 1));
        }
        i = i + 1;
        assert(out@ =~= start + seq!['"'] + escaped(s@.take(i as int)));
    }
    assert(s@.take(n as int) =~= s@);
    out.append("\"");
    assert(final(out)@ =~= old(out)@ + quoted_text(s@));
}

proof fn lemma_list_json_step(items: Seq<Seq<char>>, k: int)
    requires
        0 <= k < items.len(),
    ensures
        list_json(items.take(k + 1)) == list_json(items.take(k)) + (if k == 0 {
            Seq::<char>::empty()
        } else {
            seq![',']
        }) + quoted_text(items[k]),
{
    let t = items.take(k + 1);
    assert(t.drop_last() =~= items.take(k));
    if k == 0 {
        assert(list_json(items.take(k)) =~= Seq::<char>::empty());
        assert(list_json(t) =~= Seq::<char>::empty() + Seq::<char>::empty() + quoted_text(items[k]));
    }
}

fn append_list(out: &mut String, items: &Vec<String>)
    ensures
        final(out)@ == old(out)@ + list_json(labels_view(items@)),
{
    let ghost start = out@;
    let ghost views = labels_view(items@);
    let mut i: usize = 0;
    while i < items.len()
        invariant
            i <= items@.len(),
            views == labels_view(items@),
            out@ == start + list_json(views.take(i as int)),
        decreases items@.len() - i,
    {
        proof {
            lemma_list_json_step(views, i as int);
            reveal_strlit(",");
        }
        if i > 0 {
            out.append(",");
        }
        append_quoted_text(out, items[i].as_str());
        i = i + 1;
        assert(out@ =~= start + list_json(views.take(i as int)));
    }
    assert(views.take(items@.len() as int) =~= views);
}

/// The payload text of the claims.
pub fn encode_claims(c: &Claims) -> (r: String)
    ensures
        r@ == claims_json(c@),
{
    let mut out = String::from_str("{\"sub\":");
    let sub = format_uuid(c.sub);
    append_quoted(&mut out, sub.as_str());
    out.append(",\"exp\":");
    append_decimal(&mut out, c.exp);
    out.append(",\"role\":");
    match &c.role {
        Some(r) => append_quoted_text(&mut out, r.as_str()),
        None => {
            proof {
                reveal_strlit("null");
            }
            out.append("null");
        },
    }
    out.append(",\"permissions\":[");
    append_list(&mut out, &c.permissions);
    out.append("]}");
    assert(out@ =~= claims_json(c@));
    out
}

// ---------------------------------------------------------------------------
// Reading
// ---------------------------------------------------------------------------

/// `p` stands in `t` from position `pos` on.
pub open spec fn occurs_at(t: Seq<char>, pos: int, p: Seq<char>) -> bool {
    0 <= pos && pos + p.len() <= t.len() && t.subrange(pos, pos + p.len()) == p
}

pub open spec fn no_quote(s: Seq<char>) -> bool {
    forall|i: int| 0 <= i < s.len() ==> #[trigger] s[i] != '"'
}

proof fn lemma_occurs_char(t: Seq<char>, pos: int, p: Seq<char>, i: int)
    requires
        occurs_at(t, pos, p),
        0 <= i < p.len(),
    ensures
        t[pos + i] == p[i],
{
    assert(t.subrange(pos, pos + p.len())[i] == p[i]);
}

proof fn lemma_occurs_split(t: Seq<char>, pos: int, a: Seq<char>, b: Seq<char>)
    requires
        occurs_at(t, pos, a + b),
    ensures
        occurs_at(t, pos, a),
        occurs_at(t, pos + a.len(), b),
{
    assert forall|i: int| 0 <= i < a.len() implies t[pos + i] == a[i] by {
        lemma_occurs_char(t, pos, a + b, i);
    }
    assert forall|i: int| 0 <= i < b.len() implies t[pos + a.len() + i] == b[i] by {
        lemma_occurs_char(t, pos, a + b, a.len() + i);
    }
    assert(t.subrange(pos, pos + a.len()) =~= a);
    assert(t.subrange(pos + a.len(), pos + a.len() + b.len()) =~= b);
}

proof fn lemma_occurs_nested(t: Seq<char>, a: int, u: Seq<char>, b: int, p: Seq<char>)
    requires
        occurs_at(t, a, u),
        occurs_at(u, b, p),
    ensures
        occurs_at(t, a + b, p),
{
    assert forall|i: int| 0 <= i < p.len() implies t[a + b + i] == p[i] by {
        lemma_occurs_char(u, b, p, i);
        lemma_occurs_char(t, a, u, b + i);
    }
    assert(t.subrange(a + b, a + b + p.len()) =~= p);
}

proof fn lemma_occurs_whole(t: Seq<char>)
    ensures
        occurs_at(t, 0, t),
{
    assert(t.subrange(0, t.len() as int) =~= t);
}

pub open spec fn pos_sub() -> int {
    "{\"sub\":"@.len() as int
}

pub open spec fn pos_exp(c: ClaimsView) -> int {
    pos_sub() + quoted(uuid_text(c.sub)).len() + ",\"exp\":"@.len()
}

pub open spec fn pos_role(c: ClaimsView) -> int {
    pos_exp(c) + decimal(c.exp as nat).len() + ",\"role\":"@.len()
}

pub open spec fn pos_list(c: ClaimsView) -> int {
    pos_role(c) + role_json(c.role).len() + ",\"permissions\":["@.len()
}

pub open spec fn pos_end(c: ClaimsView) -> int {
    pos_list(c) + list_json(c.permissions).len()
}

proof fn lemma_layout(c: ClaimsView)
    ensures
        ({
            let t = claims_json(c);
            &&& occurs_at(t, 0, "{\"sub\":"@)
            &&& occurs_at(t, pos_sub(), quoted(uuid_text(c.sub)))
            &&& occurs_at(t, pos_sub() + quoted(uuid_text(c.sub)).len(), ",\"exp\":"@)
            &&& occurs_at(t, pos_exp(c), decimal(c.exp as nat))
            &&& occurs_at(t, pos_exp(c) + decimal(c.exp as nat).len(), ",\"role\":"@)
            &&& occurs_at(t, pos_role(c), role_json(c.role))
            &&& occurs_at(t, pos_role(c) + role_json(c.role).len(), ",\"permissions\":["@)
            &&& occurs_at(t, pos_list(c), list_json(c.permissions))
            &&& occurs_at(t, pos_end(c), "]}"@)
            &&& t.len() == pos_end(c) + "]}"@.len()
        }),
{
    let t = claims_json(c);
    let a0 = "{\"sub\":"@;
    let s = quoted(uuid_text(c.sub));
    let a1 = ",\"exp\":"@;
    let d = decimal(c.exp as nat);
    let a2 = ",\"role\":"@;
    let r = role_json(c.role);
    let a3 = ",\"permissions\":["@;
    let l = list_json(c.permissions);
    let a4 = "]}"@;
    lemma_occurs_whole(t);
    lemma_occurs_split(t, 0, a0 + s + a1 + d + a2 + r + a3 + l, a4);
    lemma_occurs_split(t, 0, a0 + s + a1 + d + a2 + r + a3, l);
    lemma_occurs_split(t, 0, a0 + s + a1 + d + a2 + r, a3);
    lemma_occurs_split(t, 0, a0 + s + a1 + d + a2, r);
    lemma_occurs_split(t, 0, a0 + s + a1 + d, a2);
    lemma_occurs_split(t, 0, a0 + s + a1, d);
    lemma_occurs_split(t, 0, a0 + s, a1);
    lemma_occurs_split(t, 0, a0, s);
}

proof fn lemma_list_prefix(items: Seq<Seq<char>>, k: int)
    requires
        0 <= k <= items.len(),
    ensures
        occurs_at(list_json(items), 0, list_json(items.take(k))),
    decreases items.len() - k,
{
    if k == items.len() {
        assert(items.take(k) =~= items);
        lemma_occurs_whole(list_json(items));
    } else {
        lemma_list_prefix(items, k + 1);
        lemma_list_json_step(items, k);
        let sep = if k == 0 {
            Seq::<char>::empty()
        } else {
            seq![',']
        };
        assert(list_json(items.take(k)) + sep + quoted_text(items[k]) =~= list_json(items.take(k)) + (sep
            + quoted_text(items[k])));
        lemma_occurs_split(
            list_json(items),
            0,
            list_json(items.take(k)),
            sep + quoted_text(items[k]),
        );
    }
}

/// Where item `k` of a list, with the comma before it, stands in the list's text.
proof fn lemma_list_item(items: Seq<Seq<char>>, k: int)
    requires
        0 <= k < items.len(),
    ensures
        k == 0 ==> occurs_at(list_json(items), 0, quoted_text(items[k])),
        k > 0 ==> occurs_at(
            list_json(items),
            list_json(items.take(k)).len() as int,
            seq![','] + quoted_text(items[k]),
        ),
        list_json(items.take(k + 1)).len() == list_json(items.take(k)).len() + (if k == 0 {
            0int
        } else {
            1int
        }) + quoted_text(items[k]).len(),
{
    lemma_list_prefix(items, k + 1);
    lemma_list_json_step(items, k);
    let sep = if k == 0 {
        Seq::<char>::empty()
    } else {
        seq![',']
    };
    assert(list_json(items.take(k)) + sep + quoted_text(items[k]) =~= list_json(items.take(k)) + (sep
        + quoted_text(items[k])));
    lemma_occurs_split(list_json(items), 0, list_json(items.take(k)), sep + quoted_text(items[k]));
    if k == 0 {
        assert(list_json(items.take(0)) =~= Seq::<char>::empty());
        assert(sep + quoted_text(items[k]) =~= quoted_text(items[k]));
    }
}

pub(crate) fn match_literal(text: &str, n: usize, pos: usize, lit: &str) -> (r: Option<usize>)
    requires
        n == text@.len(),
        pos <= n,
    ensures
        r == (if occurs_at(text@, pos as int, lit@) {
            Some((pos + lit@.len()) as usize)
        } else {
            None::<usize>
        }),
{
    let m = lit.unicode_len();
    if m > n - pos {
        return None;
    }
    let mut i: usize = 0;
    while i < m
        invariant
            n == text@.len(),
            m == lit@.len(),
            pos + m <= n,
            i <= m,
            forall|k: int| 0 <= k < i ==> text@[pos + k] == lit@[k],
        decreases m - i,
    {
        if text.get_char(pos + i) != lit.get_char(i) {
            proof {
                if occurs_at(text@, pos as int, lit@) {
                    lemma_occurs_char(text@, pos as int, lit@, i as int);
                }
            }
            return None;
        }
        i = i + 1;
    }
    assert(text@.subrange(pos as int, pos + m) =~= lit@);
    Some(pos + m)
}

fn char_is(text: &str, n: usize, pos: usize, c: char) -> (r: bool)
    requires
        n == text@.len(),
    ensures
        r == (pos < n && text@[pos as int] == c),
{
    pos < n && text.get_char(pos) == c
}

/// Position of the first `ch` at or after `pos`, or `n` where there is none.
pub(crate) fn find_char(text: &str, n: usize, pos: usize, ch: char) -> (r: usize)
    requires
        n == text@.len(),
        pos <= n,
    ensures
        pos <= r <= n,
        r < n ==> text@[r as int] == ch,
        forall|k: int| pos <= k < r ==> text@[k] != ch,
{
    let mut i = pos;
    while i < n
        invariant
            n == text@.len(),
            pos <= i <= n,
            forall|k: int| pos <= k < i ==> text@[k] != ch,
        decreases n - i,
    {
        if text.get_char(i) == ch {
            return i;
        }
        i = i + 1;
    }
    i
}

/// Reads a quoted text that holds no quote.
fn read_quoted(text: &str, n: usize, pos: usize) -> (r: Option<(String, usize)>)
    requires
        n == text@.len(),
        pos <= n,
    ensures
        r matches Some((_, e)) ==> pos + 2 <= e <= n,
        forall|l: Seq<char>|
            #[trigger] occurs_at(text@, pos as int, quoted(l)) && no_quote(l) ==> (r matches Some(
                (s, e),
            ) && s@ == l && e == pos + l.len() + 2),
{
    if !char_is(text, n, pos, '"') {
        proof {
            assert forall|l: Seq<char>| #[trigger]
                occurs_at(text@, pos as int, quoted(l)) && no_quote(l) implies false by {
                lemma_occurs_char(text@, pos as int, quoted(l), 0);
            }
        }
        return None;
    }
    let e = find_char(text, n, pos + 1, '"');
    if e == n {
        proof {
            assert forall|l: Seq<char>| #[trigger]
                occurs_at(text@, pos as int, quoted(l)) && no_quote(l) implies false by {
                lemma_occurs_char(text@, pos as int, quoted(l), l.len() + 1int);
            }
        }
        return None;
    }
    let s = text.substring_char(pos + 1, e).to_owned();
    proof {
        assert forall|l: Seq<char>| #[trigger]
            occurs_at(text@, pos as int, quoted(l)) && no_quote(l) implies s@ == l && e + 1 == pos
            + l.len() + 2 by {
            lemma_occurs_char(text@, pos as int, quoted(l), l.len() + 1int);
            if e < pos + 1 + l.len() {
                lemma_occurs_char(text@, pos as int, quoted(l), e - pos);
                assert(l[e - pos - 1] == '"');
            }
            assert(e == pos + 1 + l.len());
            assert forall|i: int| 0 <= i < l.len() implies s@[i] == l[i] by {
                lemma_occurs_char(text@, pos as int, quoted(l), i + 1);
            }
            assert(s@ =~= l);
        }
    }
    Some((s, e + 1))
}

proof fn lemma_escaped_prefix(s: Seq<char>, k: int)
    requires
        0 <= k <= s.len(),
    ensures
        occurs_at(escaped(s), 0, escaped(s.take(k))),
    decreases s.len() - k,
{
    if k == s.len() {
        assert(s.take(k) =~= s);
        lemma_occurs_whole(escaped(s));
    } else {
        lemma_escaped_prefix(s, k + 1);
        lemma_escaped_step(s, k);
        lemma_occurs_split(escaped(s), 0, escaped(s.take(k)), escape_char(s[k]));
    }
}

/// What stands at position `i` of a quoted text at `pos` once `k` of its
/// characters are read.
proof fn lemma_read_step(t: Seq<char>, pos: int, l: Seq<char>, k: int, i: int)
    requires
        occurs_at(t, pos, quoted_text(l)),
        0 <= k <= l.len(),
        i == pos + 1 + escaped(l.take(k)).len(),
    ensures
        i < t.len(),
        k == l.len() <==> t[i] == '"',
        k < l.len() ==> occurs_at(t, i, escape_char(l[k])),
        k < l.len() ==> escaped(l.take(k + 1)).len() == escaped(l.take(k)).len() + escape_char(l[k]).len(),
        k < l.len() ==> l.take(k + 1) == l.take(k).push(l[k]),
        k == l.len() ==> l.take(k) == l && i + 1 == pos + quoted_text(l).len(),
{
    let q = seq!['"'];
    assert(quoted_text(l) == q + escaped(l) + q);
    lemma_occurs_split(t, pos, q + escaped(l), q);
    lemma_occurs_split(t, pos, q, escaped(l));
    lemma_occurs_char(t, pos + 1 + escaped(l).len(), q, 0);
    if k < l.len() {
        lemma_escaped_prefix(l, k + 1);
        lemma_escaped_step(l, k);
        lemma_occurs_split(escaped(l), 0, escaped(l.take(k)), escape_char(l[k]));
        lemma_occurs_nested(t, pos + 1, escaped(l), escaped(l.take(k)).len() as int, escape_char(l[k]));
        lemma_occurs_char(t, i, escape_char(l[k]), 0);
        assert(l.take(k + 1) =~= l.take(k).push(l[k]));
    } else {
        assert(l.take(k) =~= l);
    }
}

fn hex_value(c: char) -> (r: Option<u32>)
    ensures
        r matches Some(v) ==> v < 16,
        forall|d: u128| d < 16 && #[trigger] hex_char(d) == c ==> r == Some(d as u32),
{
    let u = c as u32;
    if 48 <= u && u <= 57 {
        Some(u - 48)
    } else if 97 <= u && u <= 102 {
        Some(u - 87)
    } else {
        None
    }
}

/// The one-character text of the control character with code `v`.
fn control_text(v: u32) -> (r: &'static str)
    requires
        v < 32,
    ensures
        r@.len() == 1,
        r@[0] as u32 == v,
{
    let table = "\u{0}\u{1}\u{2}\u{3}\u{4}\u{5}\u{6}\u{7}\u{8}\u{9}\u{a}\u{b}\u{c}\u{d}\u{e}\u{f}\u{10}\u{11}\u{12}\u{13}\u{14}\u{15}\u{16}\u{17}\u{18}\u{19}\u{1a}\u{1b}\u{1c}\u{1d}\u{1e}\u{1f}";
    proof {
        reveal_strlit("\u{0}\u{1}\u{2}\u{3}\u{4}\u{5}\u{6}\u{7}\u{8}\u{9}\u{a}\u{b}\u{c}\u{d}\u{e}\u{f}\u{10}\u{11}\u{12}\u{13}\u{14}\u{15}\u{16}\u{17}\u{18}\u{19}\u{1a}\u{1b}\u{1c}\u{1d}\u{1e}\u{1f}");
        assert(table@[v as int] as u32 == v) by {
            if v == 0 {} else if v == 1 {} else if v == 2 {} else if v == 3 {} else if v == 4 {} else if v == 5 {} else if v == 6 {} else if v == 7 {} else if v == 8 {} else if v == 9 {} else if v == 10 {} else if v == 11 {} else if v == 12 {} else if v == 13 {} else if v == 14 {} else if v == 15 {} else if v == 16 {} else if v == 17 {} else if v == 18 {} else if v == 19 {} else if v == 20 {} else if v == 21 {} else if v == 22 {} else if v == 23 {} else if v == 24 {} else if v == 25 {} else if v == 26 {} else if v == 27 {} else if v == 28 {} else if v == 29 {} else if v == 30 {} else {}
        }
    }
    let r = table.substring_char(v as usize, v as usize + 1);
    assert(r@[0] == table@[v as int]);
    r
}

/// Reads a JSON string whose characters are escaped as `escape_char` writes them.
fn read_escaped(text: &str, n: usize, pos: usize) -> (r: Option<(String, usize)>)
    requires
        n == text@.len(),
        pos <= n,
    ensures
        r matches Some((_, e)) ==> pos + 2 <= e <= n,
        forall|l: Seq<char>|
            #[trigger] occurs_at(text@, pos as int, quoted_text(l)) ==> (r matches Some((s, e))
                && s@ == l && e == pos + quoted_text(l).len()),
{
    if !char_is(text, n, pos, '"') {
        proof {
            assert forall|l: Seq<char>| #[trigger] occurs_at(text@, pos as int, quoted_text(l)) implies false by {
                lemma_occurs_char(text@, pos as int, quoted_text(l), 0);
            }
        }
        return None;
    }
    let mut out = String::new();
    let mut i: usize = pos + 1;
    proof {
        assert forall|l: Seq<char>| #[trigger] occurs_at(text@, pos as int, quoted_text(l)) implies out@.len()
            <= l.len() && out@ == l.take(out@.len() as int) && i == pos + 1 + escaped(l.take(out@.len() as int)).len() by {
            assert(l.take(0) =~= Seq::<char>::empty());
            assert(out@ =~= l.take(0));
        }
    }
    loop
        invariant
            n == text@.len(),
            pos + 1 <= i <= n,
            forall|l: Seq<char>| #[trigger]
                occurs_at(text@, pos as int, quoted_text(l)) ==> out@.len() <= l.len() && out@ == l.take(
                    out@.len() as int,
                ) && i == pos + 1 + escaped(l.take(out@.len() as int)).len(),
        decreases n - i,
    {
        let ghost old_out = out@;
        let ghost old_i = i as int;
        if i >= n {
            proof {
                assert forall|l: Seq<char>| #[trigger] occurs_at(text@, pos as int, quoted_text(l)) implies false by {
                    lemma_read_step(text@, pos as int, l, old_out.len() as int, old_i);
                }
            }
            return None;
        }
        let c = text.get_char(i);
        if c == '"' {
            proof {
                assert forall|l: Seq<char>| #[trigger] occurs_at(text@, pos as int, quoted_text(l)) implies out@
                    == l && i + 1 == pos + quoted_text(l).len() by {
                    let k = old_out.len() as int;
                    lemma_read_step(text@, pos as int, l, k, old_i);
                    if k < l.len() {
                        lemma_occurs_char(text@, old_i, escape_char(l[k]), 0);
                    }
                }
            }
            return Some((out, i + 1));
        }
        if c == '\\' {
            if i + 1 >= n {
                proof {
                    assert forall|l: Seq<char>| #[trigger] occurs_at(text@, pos as int, quoted_text(l)) implies false by {
                        let k = old_out.len() as int;
                        lemma_read_step(text@, pos as int, l, k, old_i);
                        lemma_occurs_char(text@, old_i, escape_char(l[k]), 0);
                    }
                }
                return None;
            }
            let d = text.get_char(i + 1);
            if d == '"' || d == '\\' {
                proof {
                    reveal_strlit("\"");
                    reveal_strlit("\\");
                }
                if d == '"' {
                    out.append("\"");
                } else {
                    out.append("\\");
                }
                i = i + 2;
                proof {
                    assert forall|l: Seq<char>| #[trigger] occurs_at(text@, pos as int, quoted_text(l)) implies out@.len()
                        <= l.len() && out@ == l.take(out@.len() as int) && i == pos + 1 + escaped(l.take(out@.len() as int)).len() by {
                        let k = old_out.len() as int;
                        lemma_read_step(text@, pos as int, l, k, old_i);
                        lemma_occurs_char(text@, old_i, escape_char(l[k]), 0);
                        lemma_occurs_char(text@, old_i, escape_char(l[k]), 1);
                        assert(out@ =~= old_out.push(d));
                    }
                }
            } else if d == 'u' {
                if n - i <= 5 {
                    proof {
                        assert forall|l: Seq<char>| #[trigger] occurs_at(text@, pos as int, quoted_text(l)) implies false by {
                            let k = old_out.len() as int;
                            lemma_read_step(text@, pos as int, l, k, old_i);
                            lemma_occurs_char(text@, old_i, escape_char(l[k]), 0);
                            lemma_occurs_char(text@, old_i, escape_char(l[k]), 1);
                        }
                    }
                    return None;
                }
                let z1 = text.get_char(i + 2);
                let z2 = text.get_char(i + 3);
                let hi = hex_value(text.get_char(i + 4));
                let lo = hex_value(text.get_char(i + 5));
                proof {
                    assert forall|l: Seq<char>| #[trigger] occurs_at(text@, pos as int, quoted_text(l)) implies ({
                        let k = old_out.len() as int;
                        &&& k < l.len()
                        &&& (l[k] as u32) < 32
                        &&& z1 == '0' && z2 == '0'
                        &&& hi == Some(((l[k] as u32) / 16) as u32)
                        &&& lo == Some(((l[k] as u32) % 16) as u32)
                        &&& escape_char(l[k]).len() == 6
                    }) by {
                        let k = old_out.len() as int;
                        lemma_read_step(text@, pos as int, l, k, old_i);
                        let e = escape_char(l[k]);
                        lemma_occurs_char(text@, old_i, e, 0);
                        lemma_occurs_char(text@, old_i, e, 1);
                        lemma_occurs_char(text@, old_i, e, 2);
                        lemma_occurs_char(text@, old_i, e, 3);
                        lemma_occurs_char(text@, old_i, e, 4);
                        lemma_occurs_char(text@, old_i, e, 5);
                    }
                }
                let (h, v) = match (hi, lo) {
                    (Some(h), Some(v)) => (h, v),
                    _ => {
                        return None;
                    },
                };
                if z1 != '0' || z2 != '0' || h >= 2 {
                    return None;
                }
                let code = h * 16 + v;
                let piece = control_text(code);
                out.append(piece);
                i = i + 6;
                proof {
                    assert forall|l: Seq<char>| #[trigger] occurs_at(text@, pos as int, quoted_text(l)) implies out@.len()
                        <= l.len() && out@ == l.take(out@.len() as int) && i == pos + 1 + escaped(l.take(out@.len() as int)).len() by {
                        let k = old_out.len() as int;
                        lemma_read_step(text@, pos as int, l, k, old_i);
                        let u = l[k] as u32;
                        assert(code == u);
                        char_u32_cast(l[k], u);
                        char_u32_cast(piece@[0], u);
                        assert(out@ =~= old_out.push(l[k]));
                    }
                }
            } else {
                proof {
                    assert forall|l: Seq<char>| #[trigger] occurs_at(text@, pos as int, quoted_text(l)) implies false by {
                        let k = old_out.len() as int;
                        lemma_read_step(text@, pos as int, l, k, old_i);
                        lemma_occurs_char(text@, old_i, escape_char(l[k]), 0);
                        lemma_occurs_char(text@, old_i, escape_char(l[k]), 1);
                    }
                }
                return None;
            }
        } else {
            let piece = text.substring_char(i, i + 1);
            out.append(piece);
            i = i + 1;
            proof {
                assert forall|l: Seq<char>| #[trigger] occurs_at(text@, pos as int, quoted_text(l)) implies out@.len()
                    <= l.len() && out@ == l.take(out@.len() as int) && i == pos + 1 + escaped(l.take(out@.len() as int)).len() by {
                    let k = old_out.len() as int;
                    lemma_read_step(text@, pos as int, l, k, old_i);
                    lemma_occurs_char(text@, old_i, escape_char(l[k]), 0);
                    assert(out@ =~= old_out.push(c));
                }
            }
        }
    }
}

pub open spec fn digit_value(c: char) -> int {
    (c as u32) - 48
}

/// The number that a run of decimal digits stands for.
pub open spec fn digits_value(s: Seq<char>) -> int
    decreases s.len(),
{
    if s.len() == 0 {
        0
    } else {
        digits_value(s.drop_last()) * 10 + digit_value(s.last())
    }
}

pub open spec fn all_digits(s: Seq<char>) -> bool {
    forall|i: int| 0 <= i < s.len() ==> is_digit(#[trigger] s[i])
}

proof fn lemma_digit_char(d: int)
    requires
        0 <= d < 10,
    ensures
        is_digit(digit_char(d)),
        digit_value(digit_char(d)) == d,
{
}

proof fn lemma_decimal(n: nat)
    ensures
        decimal(n).len() >= 1,
        all_digits(decimal(n)),
        digits_value(decimal(n)) == n,
    decreases n,
{
    if n < 10 {
        lemma_digit_char(n as int);
        assert(decimal(n).drop_last() =~= Seq::<char>::empty());
        assert(digits_value(Seq::<char>::empty()) == 0);
        assert(digits_value(decimal(n)) == digits_value(decimal(n).drop_last()) * 10 + digit_value(decimal(n).last()));
    } else {
        lemma_decimal(n / 10);
        lemma_digit_char((n % 10) as int);
        assert(decimal(n).drop_last() =~= decimal(n / 10));
        assert(decimal(n).last() == digit_char((n % 10) as int));
        assert((n / 10) * 10 + n % 10 == n) by (nonlinear_arith);
        assert(digits_value(decimal(n)) == digits_value(decimal(n).drop_last()) * 10 + digit_value(decimal(n).last()));
    }
}

proof fn lemma_digits_prefix(s: Seq<char>, j: int)
    requires
        all_digits(s),
        0 <= j <= s.len(),
    ensures
        0 <= digits_value(s.take(j)) <= digits_value(s),
    decreases s.len(),
{
    if s.len() > 0 {
        assert(all_digits(s.drop_last()));
        if j == s.len() {
            assert(s.take(j) =~= s);
            lemma_digits_prefix(s.drop_last(), j - 1);
        } else {
            lemma_digits_prefix(s.drop_last(), j);
            assert(s.drop_last().take(j) =~= s.take(j));
        }
    }
}

/// Reads a run of decimal digits as a `u64`.
fn scan_decimal(text: &str, n: usize, pos: usize) -> (r: Option<(u64, usize)>)
    requires
        n == text@.len(),
        pos <= n,
    ensures
        r matches Some((_, e)) ==> pos <= e <= n,
        forall|v: u64|
            #[trigger] occurs_at(text@, pos as int, decimal(v as nat)) && (pos + decimal(
                v as nat,
            ).len() == n || !is_digit(text@[pos + decimal(v as nat).len()])) ==> r == Some(
                (v, (pos + decimal(v as nat).len()) as usize),
            ),
{
    let mut i = pos;
    let mut acc: u64 = 0;
    while i < n
        invariant
            n == text@.len(),
            pos <= i <= n,
            all_digits(text@.subrange(pos as int, i as int)),
            acc == digits_value(text@.subrange(pos as int, i as int)),
        ensures
            pos <= i <= n,
            all_digits(text@.subrange(pos as int, i as int)),
            acc == digits_value(text@.subrange(pos as int, i as int)),
            i == n || !is_digit(text@[i as int]),
        decreases n - i,
    {
        let c = text.get_char(i);
        if !('0' <= c && c <= '9') {
            break ;
        }
        let d = (c as u32 - 48) as u64;
        let ghost next = text@.subrange(pos as int, i + 1);
        assert(next.drop_last() =~= text@.subrange(pos as int, i as int));
        let step = match acc.checked_mul(10) {
            Some(m) => m.checked_add(d),
            None => None,
        };
        match step {
            Some(a) => {
                acc = a;
            },
            None => {
                proof {
                    assert forall|v: u64| #[trigger]
                        occurs_at(text@, pos as int, decimal(v as nat)) && (pos + decimal(
                            v as nat,
                        ).len() == n || !is_digit(text@[pos + decimal(v as nat).len()])) implies false by {
                        let dv = decimal(v as nat);
                        lemma_decimal(v as nat);
                        if pos + dv.len() <= i {
                            if pos + dv.len() < n {
                                assert(text@.subrange(pos as int, i as int)[dv.len() as int] == text@[pos + dv.len()]);
                            }
                        }
                        assert(i < pos + dv.len());
                        assert(next =~= dv.take(i + 1 - pos)) by {
                            assert forall|k: int| 0 <= k < i + 1 - pos implies next[k] == dv[k] by {
                                lemma_occurs_char(text@, pos as int, dv, k);
                            }
                        }
                        lemma_digits_prefix(dv, i + 1 - pos);
                    }
                }
                return None;
            },
        }
        i = i + 1;
        assert(all_digits(text@.subrange(pos as int, i as int))) by {
            assert forall|k: int| 0 <= k < i - pos implies is_digit(#[trigger] text@.subrange(pos as int, i as int)[k]) by {
                if k < i - 1 - pos {
                    assert(text@.subrange(pos as int, i - 1)[k] == text@[pos + k]);
                }
            }
        }
    }
    proof {
        assert forall|v: u64| #[trigger]
            occurs_at(text@, pos as int, decimal(v as nat)) && (pos + decimal(v as nat).len() == n
                || !is_digit(text@[pos + decimal(v as nat).len()])) implies i == pos + decimal(
            v as nat,
        ).len() && acc == v by {
            let dv = decimal(v as nat);
            lemma_decimal(v as nat);
            if i < pos + dv.len() {
                lemma_occurs_char(text@, pos as int, dv, i - pos);
            }
            if i > pos + dv.len() {
                assert(text@.subrange(pos as int, i as int)[dv.len() as int] == text@[pos + dv.len()]);
            }
            assert(text@.subrange(pos as int, i as int) =~= dv) by {
                assert forall|k: int| 0 <= k < dv.len() implies text@.subrange(pos as int, i as int)[k] == dv[k] by {
                    lemma_occurs_char(text@, pos as int, dv, k);
                }
            }
        }
    }
    if i == pos {
        proof {
            assert forall|v: u64| #[trigger]
                occurs_at(text@, pos as int, decimal(v as nat)) && (pos + decimal(v as nat).len() == n
                    || !is_digit(text@[pos + decimal(v as nat).len()])) implies false by {
                lemma_decimal(v as nat);
            }
        }
        return None;
    }
    Some((acc, i))
}

/// `text` is the payload text of the claims `c`.
pub open spec fn encodes(text: Seq<char>, c: ClaimsView) -> bool {
    claims_json(c) == text
}

proof fn lemma_literal_chars()
    ensures
        ",\"exp\":"@.len() == 7,
        ",\"role\":"@[0] == ',',
        ",\"role\":"@.len() == 8,
        ",\"permissions\":["@.len() == 16,
        "]}"@[0] == ']',
        "]}"@.len() == 2,
        "null"@ == seq!['n', 'u', 'l', 'l'],
        "{\"sub\":"@.len() == 7,
{
    reveal_strlit(",\"exp\":");
    reveal_strlit(",\"role\":");
    reveal_strlit(",\"permissions\":[");
    reveal_strlit("]}");
    reveal_strlit("null");
    reveal_strlit("{\"sub\":");
}

/// Reads the list of permission texts that starts at `start`.
fn read_list(text: &str, n: usize, start: usize) -> (r: Option<(Vec<String>, usize)>)
    requires
        n == text@.len(),
        start <= n,
    ensures
        r matches Some((_, e)) ==> start <= e <= n,
        forall|c: ClaimsView| #[trigger]
            encodes(text@, c) && start == pos_list(c) ==> (r matches Some((v, e)) && labels_view(
                v@,
            ) == c.permissions && e == pos_end(c)),
{
    let mut perms: Vec<String> = Vec::new();
    let mut pos: usize = start;
    loop
        invariant
            n == text@.len(),
            start <= pos <= n,
            forall|c: ClaimsView| #[trigger]
                encodes(text@, c) && start == pos_list(c) ==> perms@.len() <= c.permissions.len()
                    && labels_view(perms@) == c.permissions.take(perms@.len() as int) && pos
                    == pos_list(c) + list_json(c.permissions.take(perms@.len() as int)).len(),
        ensures
            forall|c: ClaimsView| #[trigger]
                encodes(text@, c) && start == pos_list(c) ==> labels_view(perms@) == c.permissions
                    && pos == pos_end(c),
        decreases n - pos,
    {
        if char_is(text, n, pos, ']') {
            proof {
                assert forall|c: ClaimsView| #[trigger]
                    encodes(text@, c) && start == pos_list(c) implies labels_view(perms@)
                    == c.permissions && pos == pos_end(c) by {
                    let k = perms@.len() as int;
                    let items = c.permissions;
                    lemma_layout(c);
                    if k < items.len() {
                        lemma_list_item(items, k);
                        lemma_occurs_nested(text@, pos_list(c), list_json(items), if k == 0 {
                            0int
                        } else {
                            list_json(items.take(k)).len() as int
                        }, if k == 0 {
                            quoted_text(items[k])
                        } else {
                            seq![','] + quoted_text(items[k])
                        });
                        if k == 0 {
                            assert(list_json(items.take(0)) =~= Seq::<char>::empty());
                            lemma_occurs_char(text@, pos as int, quoted_text(items[k]), 0);
                        } else {
                            lemma_occurs_char(text@, pos as int, seq![','] + quoted_text(items[k]), 0);
                        }
                    }
                    assert(items.take(k) =~= items);
                }
            }
            break ;
        }
        let ghost before = perms@;
        let ghost pos0 = pos;
        if perms.len() > 0 {
            if !char_is(text, n, pos, ',') {
                proof {
                    assert forall|c: ClaimsView| #[trigger]
                        encodes(text@, c) && start == pos_list(c) implies false by {
                        let k = perms@.len() as int;
                        let items = c.permissions;
                        lemma_layout(c);
                        lemma_literal_chars();
                        if k < items.len() {
                            lemma_list_item(items, k);
                            lemma_occurs_nested(text@, pos_list(c), list_json(items), list_json(items.take(k)).len() as int, seq![','] + quoted_text(items[k]));
                            lemma_occurs_char(text@, pos as int, seq![','] + quoted_text(items[k]), 0);
                        } else {
                            assert(items.take(k) =~= items);
                            lemma_occurs_char(text@, pos as int, "]}"@, 0);
                        }
                    }
                }
                return None;
            }
            pos = pos + 1;
        }
        proof {
            assert forall|c: ClaimsView| #[trigger]
                encodes(text@, c) && start == pos_list(c) implies perms@.len() < c.permissions.len()
                && occurs_at(text@, pos as int, quoted_text(c.permissions[perms@.len() as int])) by {
                let k = perms@.len() as int;
                let items = c.permissions;
                lemma_layout(c);
                lemma_literal_chars();
                if k < items.len() {
                    lemma_list_item(items, k);
                    if k == 0 {
                        assert(list_json(items.take(0)) =~= Seq::<char>::empty());
                        lemma_occurs_nested(text@, pos_list(c), list_json(items), 0, quoted_text(items[k]));
                    } else {
                        lemma_occurs_nested(text@, pos_list(c), list_json(items), list_json(items.take(k)).len() as int, seq![','] + quoted_text(items[k]));
                        lemma_occurs_split(text@, pos0 as int, seq![','], quoted_text(items[k]));
                    }
                } else {
                    assert(items.take(k) =~= items);
                    if k == 0 {
                        lemma_occurs_char(text@, pos0 as int, "]}"@, 0);
                    } else {
                        lemma_occurs_char(text@, pos0 as int, "]}"@, 0);
                    }
                }
            }
        }
        match read_escaped(text, n, pos) {
            Some((s, e)) => {
                proof {
                    assert forall|c: ClaimsView| #[trigger]
                        encodes(text@, c) && start == pos_list(c) implies s@ == c.permissions[perms@.len() as int]
                        && e == pos + quoted_text(c.permissions[perms@.len() as int]).len() by {
                        let l = c.permissions[perms@.len() as int];
                        assert(occurs_at(text@, pos as int, quoted_text(l)));
                    }
                }
                perms.push(s);
                pos = e;
                proof {
                    assert forall|c: ClaimsView| #[trigger]
                        encodes(text@, c) && start == pos_list(c) implies perms@.len() <= c.permissions.len()
                        && labels_view(perms@) == c.permissions.take(perms@.len() as int) && pos
                        == pos_list(c) + list_json(c.permissions.take(perms@.len() as int)).len() by {
                        let k = before.len() as int;
                        let items = c.permissions;
                        lemma_list_item(items, k);
                        assert(items.take(k + 1) =~= items.take(k).push(items[k]));
                        assert(labels_view(perms@) =~= labels_view(before).push(s@));
                    }
                }
            },
            None => {
                proof {
                    assert forall|c: ClaimsView| #[trigger]
                        encodes(text@, c) && start == pos_list(c) implies false by {
                        let l = c.permissions[perms@.len() as int];
                        assert(occurs_at(text@, pos as int, quoted_text(l)));
                    }
                }
                return None;
            },
        }
    }
    Some((perms, pos))
}

#[verifier::rlimit(60)]
fn parse_claims(text: &str) -> (r: Option<Claims>)
    ensures
        forall|c: ClaimsView| #[trigger] encodes(text@, c) ==> (r matches Some(x) && x@ == c),
{
    let n = text.unicode_len();
    proof {
        lemma_literal_chars();
    }
    let at_sub = match match_literal(text, n, 0, "{\"sub\":") {
        Some(p) => p,
        None => {
            proof {
                assert forall|c: ClaimsView| #[trigger] encodes(text@, c) implies false by {
                    lemma_layout(c);
                }
            }
            return None;
        },
    };
    let (sub_text, after_sub) = match read_quoted(text, n, at_sub) {
        Some(x) => x,
        None => {
            proof {
                assert forall|c: ClaimsView| #[trigger] encodes(text@, c) implies false by {
                    lemma_layout(c);
                    lemma_uuid_text_plain(c.sub);
                    assert(occurs_at(text@, at_sub as int, quoted(uuid_text(c.sub))));
                }
            }
            return None;
        },
    };
    proof {
        assert forall|c: ClaimsView| #[trigger] encodes(text@, c) implies sub_text@ == uuid_text(
            c.sub,
        ) && after_sub == pos_sub() + quoted(uuid_text(c.sub)).len() by {
            lemma_layout(c);
            lemma_uuid_text_plain(c.sub);
            assert(occurs_at(text@, at_sub as int, quoted(uuid_text(c.sub))));
        }
    }
    let sub = match parse_uuid(sub_text.as_str()) {
        Some(v) => v,
        None => {
            proof {
                assert forall|c: ClaimsView| #[trigger] encodes(text@, c) implies false by {
                    assert(uuid_text(c.sub) == sub_text@);
                }
            }
            return None;
        },
    };
    proof {
        assert forall|c: ClaimsView| #[trigger] encodes(text@, c) implies sub == c.sub by {
            assert(uuid_text(c.sub) == sub_text@);
        }
    }
    let at_exp = match match_literal(text, n, after_sub, ",\"exp\":") {
        Some(p) => p,
        None => {
            proof {
                assert forall|c: ClaimsView| #[trigger] encodes(text@, c) implies false by {
                    lemma_layout(c);
                }
            }
            return None;
        },
    };
    let (exp, after_exp) = match scan_decimal(text, n, at_exp) {
        Some(x) => x,
        None => {
            proof {
                assert forall|c: ClaimsView| #[trigger] encodes(text@, c) implies false by {
                    lemma_layout(c);
                    lemma_occurs_char(text@, pos_exp(c) + decimal(c.exp as nat).len(), ",\"role\":"@, 0);
                    assert(occurs_at(text@, at_exp as int, decimal(c.exp as nat)));
                }
            }
            return None;
        },
    };
    proof {
        assert forall|c: ClaimsView| #[trigger] encodes(text@, c) implies exp == c.exp && after_exp
            == pos_exp(c) + decimal(c.exp as nat).len() by {
            lemma_layout(c);
            lemma_occurs_char(text@, pos_exp(c) + decimal(c.exp as nat).len(), ",\"role\":"@, 0);
            assert(occurs_at(text@, at_exp as int, decimal(c.exp as nat)));
        }
    }
    let at_role = match match_literal(text, n, after_exp, ",\"role\":") {
        Some(p) => p,
        None => {
            proof {
                assert forall|c: ClaimsView| #[trigger] encodes(text@, c) implies false by {
                    lemma_layout(c);
                }
            }
            return None;
        },
    };
    let role: Option<String>;
    let after_role: usize;
    if char_is(text, n, at_role, 'n') {
        match match_literal(text, n, at_role, "null") {
            Some(p) => {
                role = None;
                after_role = p;
            },
            None => {
                proof {
                    assert forall|c: ClaimsView| #[trigger] encodes(text@, c) implies false by {
                        lemma_layout(c);
                        if c.role is Some {
                            lemma_occurs_char(text@, at_role as int, role_json(c.role), 0);
                        }
                    }
                }
                return None;
            },
        }
    } else {
        match read_escaped(text, n, at_role) {
            Some((s, e)) => {
                role = Some(s);
                after_role = e;
            },
            None => {
                proof {
                    assert forall|c: ClaimsView| #[trigger] encodes(text@, c) implies false by {
                        lemma_layout(c);
                        match c.role {
                            Some(r) => {
                                assert(occurs_at(text@, at_role as int, quoted_text(r)));
                            },
                            None => {
                                lemma_occurs_char(text@, at_role as int, role_json(c.role), 0);
                            },
                        }
                    }
                }
                return None;
            },
        }
    }
    proof {
        assert forall|c: ClaimsView| #[trigger] encodes(text@, c) implies role_view(role)
            == c.role && after_role == pos_role(c) + role_json(c.role).len() by {
            lemma_layout(c);
            match c.role {
                Some(r) => {

                    lemma_occurs_char(text@, at_role as int, role_json(c.role), 0);
                    assert(occurs_at(text@, at_role as int, quoted_text(r)));
                },
                None => {
                    lemma_occurs_char(text@, at_role as int, role_json(c.role), 0);
                },
            }
        }
    }
    let at_list = match match_literal(text, n, after_role, ",\"permissions\":[") {
        Some(p) => p,
        None => {
            proof {
                assert forall|c: ClaimsView| #[trigger] encodes(text@, c) implies false by {
                    lemma_layout(c);
                }
            }
            return None;
        },
    };
    let (permissions, after_list) = match read_list(text, n, at_list) {
        Some(x) => x,
        None => {
            proof {
                assert forall|c: ClaimsView| #[trigger] encodes(text@, c) implies false by {
                    lemma_layout(c);
                    assert(at_list == pos_list(c));
                }
            }
            return None;
        },
    };
    proof {
        assert forall|c: ClaimsView| #[trigger] encodes(text@, c) implies labels_view(permissions@)
            == c.permissions && after_list == pos_end(c) by {
            lemma_layout(c);
            assert(at_list == pos_list(c));
        }
    }
    match match_literal(text, n, after_list, "]}") {
        Some(p) => {
            if p != n {
                proof {
                    assert forall|c: ClaimsView| #[trigger] encodes(text@, c) implies false by {
                        lemma_layout(c);
                    }
                }
                return None;
            }
        },
        None => {
            proof {
                assert forall|c: ClaimsView| #[trigger] encodes(text@, c) implies false by {
                    lemma_layout(c);
                }
            }
            return None;
        },
    }
    Some(Claims { sub, exp, role, permissions })
}

/// Reads claims back from a payload text.
///
/// Succeeds exactly on the payload texts of claims, and then returns those claims.
pub fn decode_claims(text: &String) -> (r: Option<Claims>)
    ensures
        r matches Some(x) ==> encodes(text@, x@),
        r is None ==> forall|c: ClaimsView| !encodes(text@, c),
        forall|c: ClaimsView| #[trigger] encodes(text@, c) ==> (r matches Some(x) && x@ == c),
{
    let parsed = parse_claims(text.as_str());
    match parsed {
        Some(x) => {
            let again = encode_claims(&x);
            if again == *text {
                Some(x)
            } else {
                proof {
                    assert forall|c: ClaimsView| !encodes(text@, c) by {
                        if encodes(text@, c) {
                            assert(x@ == c);
                        }
                    }
                }
                None
            }
        },
        None => {
            proof {
                assert forall|c: ClaimsView| !encodes(text@, c) by {
                    if encodes(text@, c) {
                        assert(parsed is Some);
                    }
                }
            }
            None
        },
    }
}

} // verus!
