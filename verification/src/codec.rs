//! The storage encoding for list-valued entry fields.
//!
//! A list of strings is flattened into one text column in the JSON
//! style the journal has always used: `["a","b"]`, with `"` and `\`
//! escaped by a backslash. A list of action items becomes an array of
//! two-field objects: `[{"text":"t","completed":false}]`. The decoder
//! accepts exactly what the encoder writes, and reading back what was
//! written returns the original sequence.

use vstd::prelude::*;

use crate::types::ActionItem;
use crate::types::ActionItemView;

verus! {

// ─── The encoding, as a mathematical function ───────────

/// How one character appears inside a quoted string.
pub open spec fn esc_char(c: char) -> Seq<char> {
    if c == '"' || c == '\\' {
        seq!['\\', c]
    } else {
        seq![c]
    }
}

/// A string's characters with quotes and backslashes escaped.
pub open spec fn esc(s: Seq<char>) -> Seq<char>
    decreases s.len(),
{
    if s.len() == 0 {
        Seq::<char>::empty()
    } else {
        esc_char(s[0]) + esc(s.skip(1))
    }
}

/// A string as it stands in the column: quoted and escaped.
pub open spec fn quoted(s: Seq<char>) -> Seq<char> {
    seq!['"'] + esc(s) + seq!['"']
}

/// The comma-separated quoted items of a nonempty list.
pub open spec fn enc_items(l: Seq<Seq<char>>) -> Seq<char>
    decreases l.len(),
{
    if l.len() == 0 {
        Seq::<char>::empty()
    } else if l.len() == 1 {
        quoted(l[0])
    } else {
        quoted(l[0]) + seq![','] + enc_items(l.skip(1))
    }
}

/// The whole column text for a list of strings.
pub open spec fn enc_string_list(l: Seq<Seq<char>>) -> Seq<char> {
    seq!['['] + enc_items(l) + seq![']']
}

// ─── Escape: helper lemmas ──────────────────────────────

/// Escaping distributes over concatenation.
pub proof fn lemma_esc_append(a: Seq<char>, b: Seq<char>)
    ensures
        esc(a + b) == esc(a) + esc(b),
    decreases a.len(),
{
    if a.len() == 0 {
        assert(a + b =~= b);
        assert(esc(a) + esc(b) =~= esc(b));
    } else {
        assert((a + b).skip(1) =~= a.skip(1) + b);
        lemma_esc_append(a.skip(1), b);
        assert((a + b)[0] == a[0]);
        assert((a + b).skip(1) == a.skip(1) + b);
        assert((a + b).len() > 0);
        assert(esc(a + b) == esc_char((a + b)[0]) + esc((a + b).skip(1)));
        assert(esc((a + b).skip(1)) == esc(a.skip(1) + b));
        assert(esc(a + b) == esc_char(a[0]) + (esc(a.skip(1)) + esc(b)));
        assert(esc_char(a[0]) + (esc(a.skip(1)) + esc(b)) =~= (esc_char(a[0]) + esc(a.skip(1)))
            + esc(b));
    }
}

/// Escaping one character on its own.
pub proof fn lemma_esc_single(c: char)
    ensures
        esc(seq![c]) == esc_char(c),
{
    assert(seq![c].skip(1) == Seq::<char>::empty());
    assert(seq![c][0] == c);
    assert(esc(seq![c]) == esc_char(c) + esc(Seq::<char>::empty()));
    assert(esc(Seq::<char>::empty()) == Seq::<char>::empty());
    assert(esc_char(c) + Seq::<char>::empty() =~= esc_char(c));
}

// ─── Escape and encode, executable ──────────────────────

/// Escapes `s` for embedding between quotes.
pub fn escape_string(s: &str) -> (r: String)
    ensures
        r@ == esc(s@),
{
    let n = s.unicode_len();
    let mut r = String::new();
    let mut i: usize = 0;
    while i < n
        invariant
            n == s@.len(),
            0 <= i <= n,
            r@ == esc(s@.take(i as int)),
        decreases n - i,
    {
        let c = s.get_char(i);
        if c == '"' {
            r.append("\\\"");
            proof {
                reveal_strlit("\\\"");
            }
        } else if c == '\\' {
            r.append("\\\\");
            proof {
                reveal_strlit("\\\\");
            }
        } else {
            let piece = s.substring_char(i, i + 1);
            r.append(piece);
        }
        proof {
            assert(s@.take(i + 1 as int) =~= s@.take(i as int) + seq![s@[i as int]]);
            lemma_esc_append(s@.take(i as int), seq![s@[i as int]]);
            lemma_esc_single(s@[i as int]);
            assert(r@ =~= esc(s@.take(i + 1 as int)));
        }
        i = i + 1;
    }
    proof {
        assert(s@.take(n as int) =~= s@);
    }
    r
}

/// Appends `quoted(s@)` to `out`.
fn push_quoted(out: &mut String, s: &str)
    ensures
        final(out)@ == old(out)@ + quoted(s@),
{
    out.append("\"");
    let e = escape_string(s);
    out.append(e.as_str());
    out.append("\"");
    proof {
        reveal_strlit("\"");
        assert(final(out)@ =~= old(out)@ + quoted(s@));
    }
}

/// Adding one more item to the comma-separated middle.
proof fn lemma_enc_items_push(l: Seq<Seq<char>>, x: Seq<char>)
    requires
        l.len() >= 1,
    ensures
        enc_items(l.push(x)) == enc_items(l) + seq![','] + quoted(x),
    decreases l.len(),
{
    if l.len() == 1 {
        assert(l.push(x).skip(1) =~= seq![x]);
        assert(enc_items(seq![x]) == quoted(x));
        assert(enc_items(l.push(x)) =~= enc_items(l) + seq![','] + quoted(x));
    } else {
        assert(l.push(x).skip(1) =~= l.skip(1).push(x));
        lemma_enc_items_push(l.skip(1), x);
        assert(enc_items(l.push(x)) =~= enc_items(l) + seq![','] + quoted(x));
    }
}

/// Serializes a list of strings into its column text.
pub fn encode_string_list(v: &Vec<String>) -> (r: String)
    ensures
        r@ == enc_string_list(v.deep_view()),
{
    let mut r = String::new();
    r.append("[");
    proof {
        reveal_strlit("[");
    }
    let mut i: usize = 0;
    while i < v.len()
        invariant
            0 <= i <= v.len(),
            r@ == seq!['['] + enc_items(v.deep_view().take(i as int)),
        decreases v.len() - i,
    {
        if i > 0 {
            r.append(",");
            proof {
                reveal_strlit(",");
            }
        }
        push_quoted(&mut r, v[i].as_str());
        proof {
            let dv = v.deep_view();
            assert(dv[i as int] == v[i as int]@);
            if i == 0 {
                assert(dv.take(1) =~= seq![dv[0]]);
                assert(enc_items(seq![dv[0]]) == quoted(dv[0]));
                assert(r@ =~= seq!['['] + enc_items(dv.take(i + 1 as int)));
            } else {
                assert(dv.take(i + 1 as int) =~= dv.take(i as int).push(dv[i as int]));
                lemma_enc_items_push(dv.take(i as int), dv[i as int]);
                assert(r@ =~= seq!['['] + enc_items(dv.take(i + 1 as int)));
            }
        }
        i = i + 1;
    }
    r.append("]");
    proof {
        reveal_strlit("]");
        assert(v.deep_view().take(v.len() as int) =~= v.deep_view());
        assert(r@ =~= enc_string_list(v.deep_view()));
    }
    r
}

// ─── The decoder, as a mathematical function ────────────

/// Reads a quoted string's body: `s` starts just after the opening
/// quote. Returns the unescaped content and what follows the closing
/// quote.
pub open spec fn parse_qstr(s: Seq<char>) -> Option<(Seq<char>, Seq<char>)>
    decreases s.len(),
{
    if s.len() == 0 {
        None
    } else if s[0] == '"' {
        Some((Seq::<char>::empty(), s.skip(1)))
    } else if s[0] == '\\' {
        if s.len() < 2 {
            None
        } else {
            match parse_qstr(s.skip(2)) {
                Some(p) => Some((seq![s[1]] + p.0, p.1)),
                None => None,
            }
        }
    } else {
        match parse_qstr(s.skip(1)) {
            Some(p) => Some((seq![s[0]] + p.0, p.1)),
            None => None,
        }
    }
}

/// Reads the items of a nonempty list: `s` starts at the first quote
/// and must end with the closing bracket and nothing after it.
pub open spec fn parse_rest(s: Seq<char>) -> Option<Seq<Seq<char>>>
    decreases s.len(),
{
    if s.len() == 0 || s[0] != '"' {
        None
    } else {
        match parse_qstr(s.skip(1)) {
            None => None,
            Some(p) => {
                let rest = p.1;
                if rest.len() == 1 && rest[0] == ']' {
                    Some(seq![p.0])
                } else if rest.len() >= 2 && rest[0] == ',' && rest.len() < s.len() {
                    match parse_rest(rest.skip(1)) {
                        None => None,
                        Some(tail) => Some(seq![p.0] + tail),
                    }
                } else {
                    None
                }
            },
        }
    }
}

/// Reads a whole column text back into a list of strings; `None` on
/// anything the encoder would not have written.
pub open spec fn parse_string_list(s: Seq<char>) -> Option<Seq<Seq<char>>> {
    if s.len() < 2 || s[0] != '[' {
        None
    } else if s.len() == 2 {
        if s[1] == ']' {
            Some(Seq::<Seq<char>>::empty())
        } else {
            None
        }
    } else {
        parse_rest(s.skip(1))
    }
}

// ─── Round trip, proved ─────────────────────────────────

/// Reading a quoted, escaped string recovers the original content and
/// leaves exactly what followed the closing quote.
proof fn lemma_parse_qstr_of_quoted(content: Seq<char>, rest: Seq<char>)
    ensures
        parse_qstr(esc(content) + seq!['"'] + rest) == Some((content, rest)),
    decreases content.len(),
{
    let s = esc(content) + seq!['"'] + rest;
    if content.len() == 0 {
        assert(esc(content) == Seq::<char>::empty());
        assert(s[0] == '"');
        assert(s.skip(1) =~= rest);
        assert(Seq::<char>::empty() =~= content);
    } else {
        let c = content[0];
        let tail = content.skip(1);
        assert(esc(content) == esc_char(c) + esc(tail));
        lemma_parse_qstr_of_quoted(tail, rest);
        if c == '"' || c == '\\' {
            assert(esc_char(c) == seq!['\\', c]);
            assert(s[0] == '\\');
            assert(s[1] == c);
            assert(s.len() >= 2);
            assert(s.skip(2) =~= esc(tail) + seq!['"'] + rest);
            assert(parse_qstr(s) == Some((seq![c] + tail, rest)));
            assert(seq![c] + tail =~= content);
        } else {
            assert(esc_char(c) == seq![c]);
            assert(s[0] == c);
            assert(s.skip(1) =~= esc(tail) + seq!['"'] + rest);
            assert(parse_qstr(s) == Some((seq![c] + tail, rest)));
            assert(seq![c] + tail =~= content);
        }
    }
}

/// The middle of a nonempty list is at least one quoted item long.
proof fn lemma_enc_items_len(l: Seq<Seq<char>>)
    requires
        l.len() >= 1,
    ensures
        enc_items(l).len() >= 2,
    decreases l.len(),
{
    if l.len() > 1 {
        lemma_enc_items_len(l.skip(1));
    }
}

/// Reading the encoded items of a nonempty list recovers the list.
proof fn lemma_parse_rest_of_enc(l: Seq<Seq<char>>)
    requires
        l.len() >= 1,
    ensures
        parse_rest(enc_items(l) + seq![']']) == Some(l),
    decreases l.len(),
{
    let s = enc_items(l) + seq![']'];
    if l.len() == 1 {
        assert(enc_items(l) == quoted(l[0]));
        assert(s[0] == '"');
        assert(s.skip(1) =~= esc(l[0]) + seq!['"'] + seq![']']);
        lemma_parse_qstr_of_quoted(l[0], seq![']']);
        assert(parse_rest(s) == Some(seq![l[0]]));
        assert(seq![l[0]] =~= l);
    } else {
        let t = l.skip(1);
        assert(enc_items(l) == quoted(l[0]) + seq![','] + enc_items(t));
        let rest0 = seq![','] + enc_items(t) + seq![']'];
        assert(s[0] == '"');
        assert(s.skip(1) =~= esc(l[0]) + seq!['"'] + rest0);
        lemma_parse_qstr_of_quoted(l[0], rest0);
        lemma_enc_items_len(t);
        assert(rest0.len() >= 2);
        assert(rest0[0] == ',');
        assert(rest0.len() < s.len());
        assert(rest0.skip(1) =~= enc_items(t) + seq![']']);
        lemma_parse_rest_of_enc(t);
        assert(parse_rest(s) == Some(seq![l[0]] + t));
        assert(seq![l[0]] + t =~= l);
    }
}

/// Round trip: the column text written for any list of strings parses
/// back to exactly that list.
pub proof fn lemma_string_list_round_trip(l: Seq<Seq<char>>)
    ensures
        parse_string_list(enc_string_list(l)) == Some(l),
{
    let s = enc_string_list(l);
    assert(s[0] == '[');
    if l.len() == 0 {
        assert(enc_items(l) == Seq::<char>::empty());
        assert(s =~= seq!['[', ']']);
        assert(s[1] == ']');
    } else {
        lemma_enc_items_len(l);
        assert(s.len() > 2);
        assert(s.skip(1) =~= enc_items(l) + seq![']']);
        lemma_parse_rest_of_enc(l);
    }
}

/// The encoding is one to one: two lists with the same column text are
/// the same list.
pub proof fn lemma_enc_string_list_injective(a: Seq<Seq<char>>, b: Seq<Seq<char>>)
    requires
        enc_string_list(a) == enc_string_list(b),
    ensures
        a == b,
{
    lemma_string_list_round_trip(a);
    lemma_string_list_round_trip(b);
}

// ─── The decoder, executable ────────────────────────────

/// Scans a quoted string's body starting at `start` (just after the
/// opening quote); returns the content and the position just after the
/// closing quote.
fn take_qstr(s: &str, start: usize) -> (r: Option<(String, usize)>)
    requires
        start <= s@.len(),
    ensures
        (match r {
            Some(p) => start < p.1 <= s@.len() && parse_qstr(s@.skip(start as int)) == Some(
                (p.0@, s@.skip(p.1 as int)),
            ),
            None => parse_qstr(s@.skip(start as int)) is None,
        }),
{
    let n = s.unicode_len();
    let mut content = String::new();
    let mut j = start;
    loop
        invariant
            n == s@.len(),
            start <= j <= n,
            (match parse_qstr(s@.skip(j as int)) {
                Some(p) => parse_qstr(s@.skip(start as int)) == Some((content@ + p.0, p.1)),
                None => parse_qstr(s@.skip(start as int)) is None,
            }),
        decreases n - j,
    {
        if j == n {
            proof {
                assert(s@.skip(j as int) =~= Seq::<char>::empty());
            }
            return None;
        }
        let c = s.get_char(j);
        proof {
            assert(s@.skip(j as int)[0] == s@[j as int]);
        }
        if c == '"' {
            proof {
                assert(s@.skip(j as int).skip(1) =~= s@.skip(j + 1 as int));
                assert(content@ + Seq::<char>::empty() =~= content@);
            }
            return Some((content, j + 1));
        } else if c == '\\' {
            if j + 1 == n {
                proof {
                    assert(s@.skip(j as int).len() == 1);
                }
                return None;
            }
            let piece = s.substring_char(j + 1, j + 2);
            content.append(piece);
            proof {
                assert(s@.skip(j as int)[1] == s@[j + 1 as int]);
                assert(s@.skip(j as int).skip(2) =~= s@.skip(j + 2 as int));
                assert(piece@ =~= seq![s@[j + 1 as int]]);
                if let Some(p) = parse_qstr(s@.skip(j + 2 as int)) {
                    assert(content@ + p.0 =~= (old_content(content@, piece@)) + (seq![s@[j
                        + 1 as int]] + p.0));
                }
            }
            j = j + 2;
        } else {
            let piece = s.substring_char(j, j + 1);
            content.append(piece);
            proof {
                assert(s@.skip(j as int).skip(1) =~= s@.skip(j + 1 as int));
                assert(piece@ =~= seq![s@[j as int]]);
                if let Some(p) = parse_qstr(s@.skip(j + 1 as int)) {
                    assert(content@ + p.0 =~= (old_content(content@, piece@)) + (seq![s@[j as int]]
                        + p.0));
                }
            }
            j = j + 1;
        }
    }
}

/// The content before its last appended piece.
spec fn old_content(now: Seq<char>, piece: Seq<char>) -> Seq<char> {
    now.take(now.len() - piece.len())
}

/// Deserializes a column text back into a list of strings; `None` on
/// text the encoder would not have written.
pub fn decode_string_list(s: &str) -> (r: Option<Vec<String>>)
    ensures
        (match r {
            Some(v) => parse_string_list(s@) == Some(v.deep_view()),
            None => parse_string_list(s@) is None,
        }),
{
    let n = s.unicode_len();
    if n < 2 {
        return None;
    }
    if s.get_char(0) != '[' {
        return None;
    }
    if n == 2 {
        if s.get_char(1) == ']' {
            let v: Vec<String> = Vec::new();
            proof {
                assert(v.deep_view() =~= Seq::<Seq<char>>::empty());
            }
            return Some(v);
        } else {
            return None;
        }
    }
    let mut items: Vec<String> = Vec::new();
    let mut i: usize = 1;
    proof {
        assert(items.deep_view() =~= Seq::<Seq<char>>::empty());
        if let Some(tail) = parse_rest(s@.skip(1)) {
            assert(items.deep_view() + tail =~= tail);
        }
    }
    loop
        invariant
            n == s@.len(),
            1 <= i <= n,
            n > 2,
            s@[0] == '[',
            (match parse_rest(s@.skip(i as int)) {
                Some(tail) => parse_string_list(s@) == Some(items.deep_view() + tail),
                None => parse_string_list(s@) is None,
            }),
        decreases n - i,
    {
        if i == n {
            proof {
                assert(s@.skip(i as int) =~= Seq::<char>::empty());
            }
            return None;
        }
        if s.get_char(i) != '"' {
            proof {
                assert(s@.skip(i as int)[0] == s@[i as int]);
            }
            return None;
        }
        proof {
            assert(s@.skip(i as int)[0] == s@[i as int]);
            assert(s@.skip(i as int).skip(1) =~= s@.skip(i + 1 as int));
        }
        match take_qstr(s, i + 1) {
            None => {
                return None;
            },
            Some((content, end)) => {
                let ghost content_view = content@;
                let ghost old_dv = items.deep_view();
                let ghost rest = s@.skip(end as int);
                if end == n - 1 && s.get_char(end) == ']' {
                    proof {
                        assert(rest.len() == 1);
                        assert(rest[0] == s@[end as int]);
                        assert(parse_rest(s@.skip(i as int)) == Some(seq![content_view]));
                    }
                    items.push(content);
                    proof {
                        assert(items.deep_view() =~= old_dv + seq![content_view]);
                    }
                    return Some(items);
                } else if end < n && n - end >= 2 && s.get_char(end) == ',' {
                    proof {
                        assert(rest.len() >= 2);
                        assert(rest[0] == s@[end as int]);
                        assert(rest.len() < s@.skip(i as int).len());
                        assert(rest.skip(1) =~= s@.skip(end + 1 as int));
                    }
                    items.push(content);
                    i = end + 1;
                    proof {
                        assert(items.deep_view() =~= old_dv + seq![content_view]);
                        if let Some(tail) = parse_rest(s@.skip(i as int)) {
                            assert(old_dv + (seq![content_view] + tail) =~= (old_dv
                                + seq![content_view]) + tail);
                        }
                    }
                } else {
                    proof {
                        if rest.len() > 0 {
                            assert(rest[0] == s@[end as int]);
                        }
                    }
                    return None;
                }
            },
        }
    }
}

// ─── Action-item lists ──────────────────────────────────

/// The opening brace and text key of an encoded action item.
pub open spec fn key_text() -> Seq<char> {
    seq!['{', '"', 't', 'e', 'x', 't', '"', ':']
}

/// The completed key, with the comma that precedes it.
pub open spec fn key_completed() -> Seq<char> {
    seq![',', '"', 'c', 'o', 'm', 'p', 'l', 'e', 't', 'e', 'd', '"', ':']
}

/// A true flag with the closing brace.
pub open spec fn lit_true() -> Seq<char> {
    seq!['t', 'r', 'u', 'e', '}']
}

/// A false flag with the closing brace.
pub open spec fn lit_false() -> Seq<char> {
    seq!['f', 'a', 'l', 's', 'e', '}']
}

/// One action item as it stands in the column.
pub open spec fn enc_action(a: ActionItemView) -> Seq<char> {
    key_text() + quoted(a.text) + key_completed() + (if a.completed {
        lit_true()
    } else {
        lit_false()
    })
}

/// The comma-separated encoded items of a nonempty action list.
pub open spec fn enc_action_items(l: Seq<ActionItemView>) -> Seq<char>
    decreases l.len(),
{
    if l.len() == 0 {
        Seq::<char>::empty()
    } else if l.len() == 1 {
        enc_action(l[0])
    } else {
        enc_action(l[0]) + seq![','] + enc_action_items(l.skip(1))
    }
}

/// The whole column text for a list of action items.
pub open spec fn enc_action_list(l: Seq<ActionItemView>) -> Seq<char> {
    seq!['['] + enc_action_items(l) + seq![']']
}

/// Reads one encoded action item and returns it with what follows.
pub open spec fn parse_action(s: Seq<char>) -> Option<(ActionItemView, Seq<char>)> {
    if s.len() < 9 || s.take(8) != key_text() || s[8] != '"' {
        None
    } else {
        match parse_qstr(s.skip(9)) {
            None => None,
            Some(p) => {
                let r1 = p.1;
                if r1.len() < 13 || r1.take(13) != key_completed() {
                    None
                } else {
                    let r2 = r1.skip(13);
                    if r2.len() >= 5 && r2.take(5) == lit_true() {
                        Some((ActionItemView { text: p.0, completed: true }, r2.skip(5)))
                    } else if r2.len() >= 6 && r2.take(6) == lit_false() {
                        Some((ActionItemView { text: p.0, completed: false }, r2.skip(6)))
                    } else {
                        None
                    }
                }
            },
        }
    }
}

/// Reads the items of a nonempty action list up to the closing
/// bracket, which must end the input.
pub open spec fn parse_action_rest(s: Seq<char>) -> Option<Seq<ActionItemView>>
    decreases s.len(),
{
    match parse_action(s) {
        None => None,
        Some(p) => {
            let rest = p.1;
            if rest.len() == 1 && rest[0] == ']' {
                Some(seq![p.0])
            } else if rest.len() >= 2 && rest[0] == ',' && rest.len() < s.len() {
                match parse_action_rest(rest.skip(1)) {
                    None => None,
                    Some(tail) => Some(seq![p.0] + tail),
                }
            } else {
                None
            }
        },
    }
}

/// Reads a whole column text back into a list of action items.
pub open spec fn parse_action_list(s: Seq<char>) -> Option<Seq<ActionItemView>> {
    if s.len() < 2 || s[0] != '[' {
        None
    } else if s.len() == 2 {
        if s[1] == ']' {
            Some(Seq::<ActionItemView>::empty())
        } else {
            None
        }
    } else {
        parse_action_rest(s.skip(1))
    }
}

/// Reading one encoded action item recovers it and what followed.
proof fn lemma_parse_action_of_enc(a: ActionItemView, rest: Seq<char>)
    ensures
        parse_action(enc_action(a) + rest) == Some((a, rest)),
{
    let blit = if a.completed {
        lit_true()
    } else {
        lit_false()
    };
    let s = enc_action(a) + rest;
    assert(s.take(8) =~= key_text());
    assert(s[8] == '"');
    assert(s.len() >= 9);
    let r0 = key_completed() + blit + rest;
    assert(s.skip(9) =~= esc(a.text) + seq!['"'] + r0);
    lemma_parse_qstr_of_quoted(a.text, r0);
    assert(r0.take(13) =~= key_completed());
    assert(r0.len() >= 13);
    let r2 = r0.skip(13);
    assert(r2 =~= blit + rest);
    if a.completed {
        assert(r2.take(5) =~= lit_true());
        assert(r2.skip(5) =~= rest);
    } else {
        assert(r2.take(6) =~= lit_false());
        assert(r2.skip(6) =~= rest);
        assert(r2.len() >= 5 && r2.take(5) == lit_true() ==> false) by {
            if r2.len() >= 5 {
                assert(r2.take(5)[0] == 'f');
            }
        }
    }
}

/// The middle of a nonempty action list is at least one item long.
proof fn lemma_enc_action_items_len(l: Seq<ActionItemView>)
    requires
        l.len() >= 1,
    ensures
        enc_action_items(l).len() >= 2,
    decreases l.len(),
{
    if l.len() > 1 {
        lemma_enc_action_items_len(l.skip(1));
    }
}

/// Reading the encoded items of a nonempty action list recovers it.
proof fn lemma_parse_action_rest_of_enc(l: Seq<ActionItemView>)
    requires
        l.len() >= 1,
    ensures
        parse_action_rest(enc_action_items(l) + seq![']']) == Some(l),
    decreases l.len(),
{
    let s = enc_action_items(l) + seq![']'];
    if l.len() == 1 {
        assert(enc_action_items(l) == enc_action(l[0]));
        lemma_parse_action_of_enc(l[0], seq![']']);
        assert(parse_action_rest(s) == Some(seq![l[0]]));
        assert(seq![l[0]] =~= l);
    } else {
        let t = l.skip(1);
        assert(enc_action_items(l) == enc_action(l[0]) + seq![','] + enc_action_items(t));
        let rest0 = seq![','] + enc_action_items(t) + seq![']'];
        assert(s =~= enc_action(l[0]) + rest0);
        lemma_parse_action_of_enc(l[0], rest0);
        lemma_enc_action_items_len(t);
        assert(rest0.len() >= 2);
        assert(rest0[0] == ',');
        assert(enc_action(l[0]).len() >= 1) by {
            assert(enc_action(l[0]).len() >= key_text().len());
        }
        assert(rest0.len() < s.len());
        assert(rest0.skip(1) =~= enc_action_items(t) + seq![']']);
        lemma_parse_action_rest_of_enc(t);
        assert(parse_action_rest(s) == Some(seq![l[0]] + t));
        assert(seq![l[0]] + t =~= l);
    }
}

/// Round trip: the column text written for any list of action items
/// parses back to exactly that list.
pub proof fn lemma_action_list_round_trip(l: Seq<ActionItemView>)
    ensures
        parse_action_list(enc_action_list(l)) == Some(l),
{
    let s = enc_action_list(l);
    assert(s[0] == '[');
    if l.len() == 0 {
        assert(enc_action_items(l) == Seq::<char>::empty());
        assert(s =~= seq!['[', ']']);
        assert(s[1] == ']');
    } else {
        lemma_enc_action_items_len(l);
        assert(s.len() > 2);
        assert(s.skip(1) =~= enc_action_items(l) + seq![']']);
        lemma_parse_action_rest_of_enc(l);
    }
}

/// The action-list encoding is one to one.
pub proof fn lemma_enc_action_list_injective(a: Seq<ActionItemView>, b: Seq<ActionItemView>)
    requires
        enc_action_list(a) == enc_action_list(b),
    ensures
        a == b,
{
    lemma_action_list_round_trip(a);
    lemma_action_list_round_trip(b);
}

/// Serializes a list of action items into its column text.
pub fn encode_action_list(v: &Vec<ActionItem>) -> (r: String)
    ensures
        r@ == enc_action_list(v.deep_view()),
{
    let mut r = String::new();
    r.append("[");
    proof {
        reveal_strlit("[");
    }
    let mut i: usize = 0;
    while i < v.len()
        invariant
            0 <= i <= v.len(),
            r@ == seq!['['] + enc_action_items(v.deep_view().take(i as int)),
        decreases v.len() - i,
    {
        if i > 0 {
            r.append(",");
            proof {
                reveal_strlit(",");
            }
        }
        r.append("{\"text\":");
        push_quoted(&mut r, v[i].text.as_str());
        r.append(",\"completed\":");
        if v[i].completed {
            r.append("true}");
        } else {
            r.append("false}");
        }
        proof {
            reveal_strlit("{\"text\":");
            reveal_strlit(",\"completed\":");
            reveal_strlit("true}");
            reveal_strlit("false}");
            let dv = v.deep_view();
            assert(dv[i as int] == v[i as int].deep_view());
            assert(("{\"text\":")@ =~= key_text());
            assert((",\"completed\":")@ =~= key_completed());
            assert(("true}")@ =~= lit_true());
            assert(("false}")@ =~= lit_false());
            if i == 0 {
                assert(dv.take(1) =~= seq![dv[0]]);
                assert(r@ =~= seq!['['] + enc_action_items(dv.take(i + 1 as int)));
            } else {
                assert(dv.take(i + 1 as int) =~= dv.take(i as int).push(dv[i as int]));
                lemma_enc_action_items_push(dv.take(i as int), dv[i as int]);
                assert(r@ =~= seq!['['] + enc_action_items(dv.take(i + 1 as int)));
            }
        }
        i = i + 1;
    }
    r.append("]");
    proof {
        reveal_strlit("]");
        assert(v.deep_view().take(v.len() as int) =~= v.deep_view());
        assert(r@ =~= enc_action_list(v.deep_view()));
    }
    r
}

/// Adding one more encoded action item to the comma-separated middle.
proof fn lemma_enc_action_items_push(l: Seq<ActionItemView>, x: ActionItemView)
    requires
        l.len() >= 1,
    ensures
        enc_action_items(l.push(x)) == enc_action_items(l) + seq![','] + enc_action(x),
    decreases l.len(),
{
    if l.len() == 1 {
        assert(l.push(x).skip(1) =~= seq![x]);
        assert(enc_action_items(seq![x]) == enc_action(x));
        assert(enc_action_items(l.push(x)) =~= enc_action_items(l) + seq![','] + enc_action(x));
    } else {
        assert(l.push(x).skip(1) =~= l.skip(1).push(x));
        lemma_enc_action_items_push(l.skip(1), x);
        assert(enc_action_items(l.push(x)) =~= enc_action_items(l) + seq![','] + enc_action(x));
    }
}

/// Whether `pat` occurs in `s` as the characters starting at `at`.
pub(crate) fn has_at(s: &str, at: usize, pat: &str) -> (r: bool)
    requires
        at <= s@.len(),
    ensures
        r == (at + pat@.len() <= s@.len() && s@.subrange(
            at as int,
            at + pat@.len(),
        ) == pat@),
{
    let n = s.unicode_len();
    let m = pat.unicode_len();
    if m > n - at {
        return false;
    }
    let mut k: usize = 0;
    while k < m
        invariant
            n == s@.len(),
            m == pat@.len(),
            at + m <= n,
            0 <= k <= m,
            forall|j: int| 0 <= j < k ==> s@[at + j] == pat@[j],
        decreases m - k,
    {
        if s.get_char(at + k) != pat.get_char(k) {
            proof {
                assert(s@.subrange(at as int, at + pat@.len()) != pat@) by {
                    assert(s@.subrange(at as int, at + pat@.len())[k as int] != pat@[k as int]);
                }
            }
            return false;
        }
        k = k + 1;
    }
    proof {
        assert(s@.subrange(at as int, at + pat@.len()) =~= pat@);
    }
    true
}

/// Deserializes a column text back into a list of action items.
pub fn decode_action_list(s: &str) -> (r: Option<Vec<ActionItem>>)
    ensures
        (match r {
            Some(v) => parse_action_list(s@) == Some(v.deep_view()),
            None => parse_action_list(s@) is None,
        }),
{
    let n = s.unicode_len();
    if n < 2 {
        return None;
    }
    if s.get_char(0) != '[' {
        return None;
    }
    if n == 2 {
        if s.get_char(1) == ']' {
            let v: Vec<ActionItem> = Vec::new();
            proof {
                assert(v.deep_view() =~= Seq::<ActionItemView>::empty());
            }
            return Some(v);
        } else {
            return None;
        }
    }
    let mut items: Vec<ActionItem> = Vec::new();
    let mut i: usize = 1;
    proof {
        assert(items.deep_view() =~= Seq::<ActionItemView>::empty());
        if let Some(tail) = parse_action_rest(s@.skip(1)) {
            assert(items.deep_view() + tail =~= tail);
        }
    }
    loop
        invariant
            n == s@.len(),
            1 <= i <= n,
            n > 2,
            s@[0] == '[',
            (match parse_action_rest(s@.skip(i as int)) {
                Some(tail) => parse_action_list(s@) == Some(items.deep_view() + tail),
                None => parse_action_list(s@) is None,
            }),
        decreases n - i,
    {
        let ghost si = s@.skip(i as int);
        if !has_at(s, i, "{\"text\":\"") {
            proof {
                reveal_strlit("{\"text\":\"");
                assert(("{\"text\":\"")@.len() == 9);
                if si.len() >= 9 && si.take(8) == key_text() && si[8] == '"' {
                    assert(s@.subrange(i as int, i + 9) =~= ("{\"text\":\"")@) by {
                        assert(("{\"text\":\"")@ =~= key_text() + seq!['"']);
                        assert(s@.subrange(i as int, i + 9) =~= si.take(8) + seq![si[8]]);
                    }
                }
            }
            return None;
        }
        proof {
            reveal_strlit("{\"text\":\"");
            assert(("{\"text\":\"")@.len() == 9);
            assert(si.take(8) =~= s@.subrange(i as int, i + 8));
            assert(s@.subrange(i as int, i + 8) =~= ("{\"text\":\"")@.take(8));
            assert(("{\"text\":\"")@.take(8) =~= key_text());
            assert(si[8] == s@.subrange(i as int, i + 9)[8]);
            assert(si.skip(9) =~= s@.skip(i + 9 as int));
        }
        match take_qstr(s, i + 9) {
            None => {
                return None;
            },
            Some((text, tend)) => {
                let ghost r1 = s@.skip(tend as int);
                if !has_at(s, tend, ",\"completed\":") {
                    proof {
                        reveal_strlit(",\"completed\":");
                        assert((",\"completed\":")@.len() == 13);
                        if r1.len() >= 13 && r1.take(13) == key_completed() {
                            assert(s@.subrange(tend as int, tend + 13) =~= (",\"completed\":")@)
                                by {
                                assert((",\"completed\":")@ =~= key_completed());
                                assert(s@.subrange(tend as int, tend + 13) =~= r1.take(13));
                            }
                        }
                    }
                    return None;
                }
                proof {
                    reveal_strlit(",\"completed\":");
                    assert((",\"completed\":")@.len() == 13);
                    assert(r1.take(13) =~= s@.subrange(tend as int, tend + 13));
                    assert((",\"completed\":")@ =~= key_completed());
                    assert(r1.skip(13) =~= s@.skip(tend + 13 as int));
                }
                let completed: bool;
                let after: usize;
                let ghost r2 = s@.skip(tend + 13 as int);
                if has_at(s, tend + 13, "true}") {
                    completed = true;
                    proof {
                        reveal_strlit("true}");
                        assert(("true}")@.len() == 5);
                    }
                    after = tend + 13 + 5;
                    proof {
                        reveal_strlit("true}");
                        assert(("true}")@ =~= lit_true());
                        assert(r2.take(5) =~= s@.subrange(tend + 13, tend + 18));
                        assert(r2.skip(5) =~= s@.skip(after as int));
                    }
                } else if has_at(s, tend + 13, "false}") {
                    completed = false;
                    proof {
                        reveal_strlit("false}");
                        assert(("false}")@.len() == 6);
                    }
                    after = tend + 13 + 6;
                    proof {
                        reveal_strlit("true}");
                        reveal_strlit("false}");
                        assert(("false}")@ =~= lit_false());
                        assert(("true}")@ =~= lit_true());
                        assert(r2.take(6) =~= s@.subrange(tend + 13, tend + 19));
                        assert(r2.skip(6) =~= s@.skip(after as int));
                        if r2.len() >= 5 && r2.take(5) == lit_true() {
                            assert(r2.take(5)[0] == r2.take(6)[0]);
                            assert(false);
                        }
                    }
                } else {
                    proof {
                        reveal_strlit("true}");
                        reveal_strlit("false}");
                        assert(("true}")@ =~= lit_true());
                        assert(("false}")@ =~= lit_false());
                        if r2.len() >= 5 && r2.take(5) == lit_true() {
                            assert(s@.subrange(tend + 13, tend + 18) =~= r2.take(5));
                        }
                        if r2.len() >= 6 && r2.take(6) == lit_false() {
                            assert(s@.subrange(tend + 13, tend + 19) =~= r2.take(6));
                        }
                    }
                    return None;
                }
                let ghost item_view = ActionItemView { text: text@, completed };
                proof {
                    assert(parse_action(si) == Some((item_view, s@.skip(after as int))));
                }
                let ghost old_dv = items.deep_view();
                let ghost rest = s@.skip(after as int);
                if after == n - 1 && s.get_char(after) == ']' {
                    proof {
                        assert(rest.len() == 1);
                        assert(rest[0] == s@[after as int]);
                        assert(parse_action_rest(si) == Some(seq![item_view]));
                    }
                    items.push(ActionItem { text, completed });
                    proof {
                        assert(items.deep_view() =~= old_dv + seq![item_view]);
                    }
                    return Some(items);
                } else if after < n && n - after >= 2 && s.get_char(after) == ',' {
                    proof {
                        assert(rest.len() >= 2);
                        assert(rest[0] == s@[after as int]);
                        assert(after > i);
                        assert(rest.len() < si.len());
                        assert(rest.skip(1) =~= s@.skip(after + 1 as int));
                    }
                    items.push(ActionItem { text, completed });
                    i = after + 1;
                    proof {
                        assert(items.deep_view() =~= old_dv + seq![item_view]);
                        if let Some(tail) = parse_action_rest(s@.skip(i as int)) {
                            assert(old_dv + (seq![item_view] + tail) =~= (old_dv + seq![item_view])
                                + tail);
                        }
                    }
                } else {
                    proof {
                        if rest.len() > 0 {
                            assert(rest[0] == s@[after as int]);
                        }
                    }
                    return None;
                }
            },
        }
    }
}

} // verus!
