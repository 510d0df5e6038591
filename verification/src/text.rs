//! Character-level text helpers: reading a string as characters, XML
//! escaping, and the lexicographic order on identifiers that the layout uses
//! to order stop groups and corridors.
use vstd::prelude::*;

verus! {

/// `String::push` appends one character.
pub assume_specification[ String::push ](s: &mut String, ch: char)
    ensures
        final(s)@ == old(s)@.push(ch),
;

/// The characters of `s`, in order.
pub fn chars_of(s: &str) -> (v: Vec<char>)
    ensures
        v@ == s@,
{
    let mut v: Vec<char> = Vec::new();
    for c in it: s.chars()
        invariant
            v@ == it.seq().take(it.index() as int),
    {
        v.push(c);
    }
    v
}

/// A copy of `s`.
pub fn copy_string(s: &String) -> (c: String)
    ensures
        c@ == s@,
{
    s.clone()
}

/// A string holding exactly the characters of `chars`.
pub fn string_from_chars(chars: &Vec<char>) -> (s: String)
    ensures
        s@ == chars@,
{
    let mut s = String::new();
    let n = chars.len();
    let mut i: usize = 0;
    while i < n
        invariant
            n == chars@.len(),
            i <= n,
            s@ == chars@.take(i as int),
        decreases n - i,
    {
        s.push(chars[i]);
        i = i + 1;
        assert(chars@.take(i as int) =~= chars@.take((i - 1) as int).push(chars@[i - 1]));
    }
    assert(chars@.take(n as int) =~= chars@);
    s
}

// ---------------------------------------------------------------------------
// XML escaping
// ---------------------------------------------------------------------------

/// The entity that stands for `&`.
pub open spec fn amp_entity() -> Seq<char> {
    seq!['&', 'a', 'm', 'p', ';']
}

/// The entity that stands for `<`.
pub open spec fn lt_entity() -> Seq<char> {
    seq!['&', 'l', 't', ';']
}

/// The entity that stands for `>`.
pub open spec fn gt_entity() -> Seq<char> {
    seq!['&', 'g', 't', ';']
}

/// The entity that stands for `"`.
pub open spec fn quot_entity() -> Seq<char> {
    seq!['&', 'q', 'u', 'o', 't', ';']
}

/// What one character becomes in escaped XML text.
pub open spec fn escape_char(c: char) -> Seq<char> {
    if c == '&' {
        amp_entity()
    } else if c == '<' {
        lt_entity()
    } else if c == '>' {
        gt_entity()
    } else if c == '"' {
        quot_entity()
    } else {
        seq![c]
    }
}

/// Escaped XML text: every character replaced by its escape, in order.
pub open spec fn escape_spec(s: Seq<char>) -> Seq<char>
    decreases s.len(),
{
    if s.len() == 0 {
        Seq::empty()
    } else {
        escape_spec(s.drop_last()) + escape_char(s.last())
    }
}

/// Escapes `&`, `<`, `>` and `"` for use in XML text and attribute values.
pub fn escape_xml(s: &str) -> (out: String)
    ensures
        out@ == escape_spec(s@),
{
    let chars = chars_of(s);
    let n = chars.len();
    let mut out = String::new();
    let mut i: usize = 0;
    while i < n
        invariant
            n == chars@.len(),
            chars@ == s@,
            i <= n,
            out@ == escape_spec(s@.take(i as int)),
        decreases n - i,
    {
        let c = chars[i];
        proof {
            assert(s@.take((i + 1) as int).drop_last() =~= s@.take(i as int));
        }
        if c == '&' {
            out.push('&');
            out.push('a');
            out.push('m');
            out.push('p');
            out.push(';');
        } else if c == '<' {
            out.push('&');
            out.push('l');
            out.push('t');
            out.push(';');
        } else if c == '>' {
            out.push('&');
            out.push('g');
            out.push('t');
            out.push(';');
        } else if c == '"' {
            out.push('&');
            out.push('q');
            out.push('u');
            out.push('o');
            out.push('t');
            out.push(';');
        } else {
            out.push(c);
        }
        i = i + 1;
        assert(out@ =~= escape_spec(s@.take(i as int)));
    }
    assert(s@.take(n as int) =~= s@);
    out
}

/// Escaping is a concatenation: escaping `a + b` escapes `a`, then `b`.
pub proof fn law_escape_concat(a: Seq<char>, b: Seq<char>)
    ensures
        escape_spec(a + b) == escape_spec(a) + escape_spec(b),
    decreases b.len(),
{
    if b.len() == 0 {
        assert(a + b =~= a);
        assert(escape_spec(a) + escape_spec(b) =~= escape_spec(a));
    } else {
        assert((a + b).drop_last() =~= a + b.drop_last());
        assert((a + b).last() == b.last());
        law_escape_concat(a, b.drop_last());
        assert(escape_spec(a + b) =~= escape_spec(a) + escape_spec(b));
    }
}

/// `t` holds the entity `e` starting at position `i`.
pub open spec fn entity_at(t: Seq<char>, i: int, e: Seq<char>) -> bool {
    &&& 0 <= i
    &&& i + e.len() <= t.len()
    &&& t.subrange(i, i + e.len()) == e
}

/// One of the four entities starts at position `i` of `t`.
pub open spec fn begins_entity(t: Seq<char>, i: int) -> bool {
    ||| entity_at(t, i, amp_entity())
    ||| entity_at(t, i, lt_entity())
    ||| entity_at(t, i, gt_entity())
    ||| entity_at(t, i, quot_entity())
}

proof fn lemma_entity_at_prefix(p: Seq<char>, q: Seq<char>, i: int, e: Seq<char>)
    requires
        entity_at(p, i, e),
    ensures
        entity_at(p + q, i, e),
{
    assert((p + q).subrange(i, i + e.len()) =~= p.subrange(i, i + e.len()));
}

/// Escaped text holds no `<`, `>` or `"`, and every `&` in it begins one of
/// the four entities.
pub proof fn law_escape_has_no_markup(s: Seq<char>)
    ensures
        forall|i: int|
            0 <= i < escape_spec(s).len() ==> {
                let c = #[trigger] escape_spec(s)[i];
                &&& c != '<' && c != '>' && c != '"'
                &&& c == '&' ==> begins_entity(escape_spec(s), i)
            },
    decreases s.len(),
{
    if s.len() > 0 {
        law_escape_has_no_markup(s.drop_last());
        let prev = escape_spec(s.drop_last());
        let tail = escape_char(s.last());
        let t = escape_spec(s);
        assert(t == prev + tail);
        assert forall|i: int| 0 <= i < t.len() implies {
            let c = #[trigger] t[i];
            &&& c != '<' && c != '>' && c != '"'
            &&& c == '&' ==> begins_entity(t, i)
        } by {
            if i < prev.len() {
                assert(t[i] == prev[i]);
                if prev[i] == '&' {
                    assert(begins_entity(prev, i));
                    if entity_at(prev, i, amp_entity()) {
                        lemma_entity_at_prefix(prev, tail, i, amp_entity());
                    } else if entity_at(prev, i, lt_entity()) {
                        lemma_entity_at_prefix(prev, tail, i, lt_entity());
                    } else if entity_at(prev, i, gt_entity()) {
                        lemma_entity_at_prefix(prev, tail, i, gt_entity());
                    } else {
                        lemma_entity_at_prefix(prev, tail, i, quot_entity());
                    }
                }
            } else {
                assert(t[i] == tail[i - prev.len()]);
                if t[i] == '&' {
                    assert(i == prev.len());
                    assert(t.subrange(i, i + tail.len()) =~= tail);
                }
            }
        }
    }
}

/// Decodes the four entities in one left-to-right scan; every other
/// character is kept as it is.
pub open spec fn unescape_spec(t: Seq<char>) -> Seq<char>
    decreases t.len(),
{
    if t.len() == 0 {
        Seq::empty()
    } else if entity_at(t, 0, amp_entity()) {
        seq!['&'] + unescape_spec(t.skip(5))
    } else if entity_at(t, 0, lt_entity()) {
        seq!['<'] + unescape_spec(t.skip(4))
    } else if entity_at(t, 0, gt_entity()) {
        seq!['>'] + unescape_spec(t.skip(4))
    } else if entity_at(t, 0, quot_entity()) {
        seq!['"'] + unescape_spec(t.skip(6))
    } else {
        seq![t[0]] + unescape_spec(t.skip(1))
    }
}

proof fn lemma_unescape_step(c: char, u: Seq<char>)
    ensures
        unescape_spec(escape_char(c) + u) == seq![c] + unescape_spec(u),
{
    let t = escape_char(c) + u;
    if c == '&' {
        assert(t.subrange(0, 5) =~= amp_entity());
        assert(t.skip(5) =~= u);
    } else if c == '<' {
        assert(t[1] == 'l');
        assert(!entity_at(t, 0, amp_entity())) by {
            if entity_at(t, 0, amp_entity()) {
                assert(t.subrange(0, 5)[1] == t[1]);
            }
        }
        assert(t.subrange(0, 4) =~= lt_entity());
        assert(t.skip(4) =~= u);
    } else if c == '>' {
        assert(t[1] == 'g');
        assert(!entity_at(t, 0, amp_entity())) by {
            if entity_at(t, 0, amp_entity()) {
                assert(t.subrange(0, 5)[1] == t[1]);
            }
        }
        assert(!entity_at(t, 0, lt_entity())) by {
            if entity_at(t, 0, lt_entity()) {
                assert(t.subrange(0, 4)[1] == t[1]);
            }
        }
        assert(t.subrange(0, 4) =~= gt_entity());
        assert(t.skip(4) =~= u);
    } else if c == '"' {
        assert(t[1] == 'q');
        assert(!entity_at(t, 0, amp_entity())) by {
            if entity_at(t, 0, amp_entity()) {
                assert(t.subrange(0, 5)[1] == t[1]);
            }
        }
        assert(!entity_at(t, 0, lt_entity())) by {
            if entity_at(t, 0, lt_entity()) {
                assert(t.subrange(0, 4)[1] == t[1]);
            }
        }
        assert(!entity_at(t, 0, gt_entity())) by {
            if entity_at(t, 0, gt_entity()) {
                assert(t.subrange(0, 4)[1] == t[1]);
            }
        }
        assert(t.subrange(0, 6) =~= quot_entity());
        assert(t.skip(6) =~= u);
    } else {
        assert(t[0] == c);
        assert(!begins_entity(t, 0)) by {
            if entity_at(t, 0, amp_entity()) {
                assert(t.subrange(0, 5)[0] == t[0]);
            }
            if entity_at(t, 0, lt_entity()) {
                assert(t.subrange(0, 4)[0] == t[0]);
            }
            if entity_at(t, 0, gt_entity()) {
                assert(t.subrange(0, 4)[0] == t[0]);
            }
            if entity_at(t, 0, quot_entity()) {
                assert(t.subrange(0, 6)[0] == t[0]);
            }
        }
        assert(t.skip(1) =~= u);
    }
}

/// Escaping can be undone: decoding the escaped text gives back the input.
pub proof fn law_escape_round_trip(s: Seq<char>)
    ensures
        unescape_spec(escape_spec(s)) == s,
    decreases s.len(),
{
    if s.len() > 0 {
        let c = s[0];
        let r = s.drop_first();
        assert(s =~= seq![c] + r);
        law_escape_concat(seq![c], r);
        let one = seq![c];
        assert(one.drop_last() =~= Seq::<char>::empty());
        assert(one.last() == c);
        assert(escape_spec(one.drop_last()).len() == 0);
        assert(escape_spec(one) =~= escape_char(c));
        lemma_unescape_step(c, escape_spec(r));
        law_escape_round_trip(r);
        assert(seq![c] + r =~= s);
    }
}

/// Text free of the four special characters is left as it is.
pub proof fn law_escape_plain_is_identity(s: Seq<char>)
    requires
        forall|i: int|
            0 <= i < s.len() ==> {
                let c = #[trigger] s[i];
                c != '&' && c != '<' && c != '>' && c != '"'
            },
    ensures
        escape_spec(s) == s,
    decreases s.len(),
{
    if s.len() > 0 {
        let p = s.drop_last();
        assert forall|i: int| 0 <= i < p.len() implies {
            let c = #[trigger] p[i];
            c != '&' && c != '<' && c != '>' && c != '"'
        } by {
            assert(p[i] == s[i]);
        }
        law_escape_plain_is_identity(p);
        let c = s[s.len() - 1];
        assert(c != '&' && c != '<' && c != '>' && c != '"');
        assert(escape_spec(s) =~= s);
    }
}

// ---------------------------------------------------------------------------
// Lexicographic order on character sequences
// ---------------------------------------------------------------------------

/// `a` sorts strictly before `b`, comparing characters by code point and a
/// proper prefix before its extensions.
pub open spec fn lex_lt(a: Seq<char>, b: Seq<char>) -> bool
    decreases a.len(),
{
    if a.len() == 0 {
        b.len() > 0
    } else if b.len() == 0 {
        false
    } else if a[0] != b[0] {
        (a[0] as u32) < (b[0] as u32)
    } else {
        lex_lt(a.drop_first(), b.drop_first())
    }
}

/// `a` sorts before `b` or equals it.
pub open spec fn lex_le(a: Seq<char>, b: Seq<char>) -> bool {
    lex_lt(a, b) || a == b
}

pub proof fn lemma_lex_irreflexive(a: Seq<char>)
    ensures
        !lex_lt(a, a),
    decreases a.len(),
{
    if a.len() > 0 {
        lemma_lex_irreflexive(a.drop_first());
    }
}

pub proof fn lemma_lex_transitive(a: Seq<char>, b: Seq<char>, c: Seq<char>)
    requires
        lex_lt(a, b),
        lex_lt(b, c),
    ensures
        lex_lt(a, c),
    decreases a.len(),
{
    if a.len() > 0 && b.len() > 0 && c.len() > 0 {
        if a[0] == b[0] && b[0] == c[0] {
            lemma_lex_transitive(a.drop_first(), b.drop_first(), c.drop_first());
        }
    }
}

pub proof fn lemma_lex_total(a: Seq<char>, b: Seq<char>)
    ensures
        lex_lt(a, b) || lex_lt(b, a) || a == b,
    decreases a.len(),
{
    if a.len() > 0 && b.len() > 0 {
        if a[0] == b[0] {
            lemma_lex_total(a.drop_first(), b.drop_first());
            if a.drop_first() == b.drop_first() {
                assert(a =~= seq![a[0]] + a.drop_first());
                assert(b =~= seq![b[0]] + b.drop_first());
            }
        } else {
            vstd::utf8::char_u32_cast(a[0], a[0] as u32);
            vstd::utf8::char_u32_cast(b[0], b[0] as u32);
            assert((a[0] as u32) != (b[0] as u32));
        }
    } else if a.len() == 0 && b.len() == 0 {
        assert(a =~= b);
    }
}

pub proof fn lemma_lex_asymmetric(a: Seq<char>, b: Seq<char>)
    requires
        lex_lt(a, b),
    ensures
        !lex_lt(b, a),
        a != b,
{
    lemma_lex_irreflexive(a);
    if lex_lt(b, a) {
        lemma_lex_transitive(a, b, a);
    }
}

/// The three-way result of comparing two keys.
#[derive(Clone, Copy, PartialEq, Eq, Structural, Debug)]
pub enum LexOrder {
    Less,
    Equal,
    Greater,
}

/// The meaning of a comparison result for two sequences.
pub open spec fn lex_order_of(a: Seq<char>, b: Seq<char>) -> LexOrder {
    if a == b {
        LexOrder::Equal
    } else if lex_lt(a, b) {
        LexOrder::Less
    } else {
        LexOrder::Greater
    }
}

proof fn lemma_lex_step(a: Seq<char>, b: Seq<char>, i: int)
    requires
        0 <= i < a.len(),
        i < b.len(),
        a[i] == b[i],
    ensures
        lex_lt(a.skip(i), b.skip(i)) == lex_lt(a.skip(i + 1), b.skip(i + 1)),
{
    assert(a.skip(i).drop_first() =~= a.skip(i + 1));
    assert(b.skip(i).drop_first() =~= b.skip(i + 1));
    assert(a.skip(i)[0] == a[i]);
    assert(b.skip(i)[0] == b[i]);
}

/// Compares two character sequences lexicographically.
pub fn lex_compare(a: &Vec<char>, b: &Vec<char>) -> (r: LexOrder)
    ensures
        r == lex_order_of(a@, b@),
{
    let n = a.len();
    let m = b.len();
    let mut i: usize = 0;
    assert(a@.skip(0) =~= a@);
    assert(b@.skip(0) =~= b@);
    while i < n && i < m && a[i] == b[i]
        invariant
            n == a@.len(),
            m == b@.len(),
            i <= n,
            i <= m,
            a@.take(i as int) == b@.take(i as int),
            lex_lt(a@, b@) == lex_lt(a@.skip(i as int), b@.skip(i as int)),
            lex_lt(b@, a@) == lex_lt(b@.skip(i as int), a@.skip(i as int)),
        decreases n - i,
    {
        proof {
            lemma_lex_step(a@, b@, i as int);
            lemma_lex_step(b@, a@, i as int);
            assert(a@.take(i + 1) =~= a@.take(i as int).push(a@[i as int]));
            assert(b@.take(i + 1) =~= b@.take(i as int).push(b@[i as int]));
        }
        i = i + 1;
    }
    proof {
        lemma_lex_total(a@, b@);
        lemma_lex_irreflexive(a@);
    }
    if i == n && i == m {
        assert(a@ =~= a@.take(i as int));
        assert(b@ =~= b@.take(i as int));
        LexOrder::Equal
    } else if i == n {
        assert(a@.skip(i as int).len() == 0);
        assert(a@ != b@);
        LexOrder::Less
    } else if i == m {
        assert(b@.skip(i as int).len() == 0);
        assert(a@.len() != b@.len());
        LexOrder::Greater
    } else {
        assert(a@.skip(i as int)[0] == a@[i as int]);
        assert(b@.skip(i as int)[0] == b@[i as int]);
        assert(a@[i as int] != b@[i as int]);
        assert(a@ != b@);
        if (a[i] as u32) < (b[i] as u32) {
            LexOrder::Less
        } else {
            LexOrder::Greater
        }
    }
}

} // verus!
