//! The durable store's text format.
//!
//! A store is a sequence of newline-terminated lines: a `[unique_tags]`
//! section header, one line per tag entry, a `[unique_type_tags]` section
//! header, and one line per type entry.  An entry line is
//! `"<key>" = "<uuid>"`, the key quoted with backslash escapes and the
//! UUID in canonical hyphenated form.  `decode` parses such text into a
//! registry (either section may be absent, and is then empty); `encode`
//! renders a registry back.  The contracts pin both down against a
//! spec-level parser, `decode_spec`.

use vstd::prelude::*;

use crate::registry::assoc_map;
use crate::registry::distinct_keys;
use crate::registry::str_eq;
use crate::registry::Namespace;
use crate::registry::Registry;
use crate::uuid_text::lemma_uuid_chars_injective;
use crate::uuid_text::parse_uuid;
use crate::uuid_text::uuid_chars;
use crate::wrappers::push_char;

verus! {

/// The store's text exists but does not have the two-namespace shape.
#[derive(Clone, Copy, PartialEq, Eq, Structural, Debug)]
pub struct FormatError;

/// The text split at every newline.  A final newline therefore yields a
/// trailing empty line, and empty text is one empty line.
pub open spec fn spec_lines(s: Seq<char>) -> Seq<Seq<char>>
    decreases s.len(),
{
    if s.len() == 0 {
        seq![Seq::<char>::empty()]
    } else if s[0] == '\n' {
        seq![Seq::<char>::empty()] + spec_lines(s.drop_first())
    } else {
        let rest = spec_lines(s.drop_first());
        seq![seq![s[0]] + rest[0]] + rest.drop_first()
    }
}

/// A newline-free prefix before a newline is the first line.
pub proof fn lemma_lines_of_concat(l: Seq<char>, t: Seq<char>)
    requires
        forall|j: int| 0 <= j < l.len() ==> l[j] != '\n',
    ensures
        spec_lines(l + seq!['\n'] + t) == seq![l] + spec_lines(t),
    decreases l.len(),
{
    let s = l + seq!['\n'] + t;
    if l.len() == 0 {
        assert(s =~= seq!['\n'] + t);
        assert(s[0] == '\n');
        assert(s.drop_first() =~= t);
        assert(l =~= Seq::<char>::empty());
        assert(spec_lines(s) =~= seq![l] + spec_lines(t));
    } else {
        assert(s[0] == l[0]);
        assert(s[0] != '\n');
        assert(s.drop_first() =~= l.drop_first() + seq!['\n'] + t);
        lemma_lines_of_concat(l.drop_first(), t);
        let rest = spec_lines(s.drop_first());
        assert(rest == seq![l.drop_first()] + spec_lines(t));
        assert(rest[0] == l.drop_first());
        assert(seq![s[0]] + rest[0] =~= l);
        assert(rest.drop_first() =~= spec_lines(t));
        assert(spec_lines(s) =~= seq![l] + spec_lines(t));
    }
}

/// The lines joined back together, a newline after each.
pub open spec fn lines_text(ls: Seq<Seq<char>>) -> Seq<char>
    decreases ls.len(),
{
    if ls.len() == 0 {
        Seq::empty()
    } else {
        ls[0] + seq!['\n'] + lines_text(ls.drop_first())
    }
}

/// Splitting newline-free joined lines gives them back, plus the trailing
/// empty line after the final newline.
pub proof fn lemma_lines_round_trip(ls: Seq<Seq<char>>)
    requires
        forall|i: int, j: int|
            0 <= i < ls.len() && 0 <= j < ls[i].len() ==> #[trigger] ls[i][j] != '\n',
    ensures
        spec_lines(lines_text(ls)) == ls + seq![Seq::<char>::empty()],
    decreases ls.len(),
{
    if ls.len() == 0 {
        assert(spec_lines(lines_text(ls)) =~= ls + seq![Seq::<char>::empty()]);
    } else {
        lemma_lines_round_trip(ls.drop_first());
        lemma_lines_of_concat(ls[0], lines_text(ls.drop_first()));
        assert(spec_lines(lines_text(ls)) =~= ls + seq![Seq::<char>::empty()]);
    }
}

/// Splits the text at every newline.
pub fn split_lines(s: &str, i: usize) -> (r: Vec<String>)
    requires
        i <= s@.len(),
    ensures
        r@.map_values(|l: String| l@) == spec_lines(s@.skip(i as int)),
        r@.len() >= 1,
    decreases s@.len() - i,
{
    let len = s.unicode_len();
    if i >= len {
        proof {
            assert(s@.skip(i as int) =~= Seq::<char>::empty());
        }
        let mut r: Vec<String> = Vec::new();
        r.push(String::new());
        proof {
            assert(r@.map_values(|l: String| l@) =~= spec_lines(s@.skip(i as int)));
        }
        r
    } else {
        let c = s.get_char(i);
        proof {
            assert(s@.skip(i as int)[0] == s@[i as int]);
            assert(s@.skip(i as int).drop_first() =~= s@.skip(i as int + 1));
        }
        let mut rest = split_lines(s, i + 1);
        let ghost rest_view = rest@.map_values(|l: String| l@);
        if c == '\n' {
            rest.insert(0, String::new());
            proof {
                assert(rest@.map_values(|l: String| l@) =~= seq![Seq::<char>::empty()]
                    + rest_view);
            }
            rest
        } else {
            let head = rest.remove(0);
            let mut first = String::new();
            push_char(&mut first, c);
            first.append(head.as_str());
            rest.insert(0, first);
            proof {
                assert(first@ =~= seq![s@.skip(i as int)[0]] + rest_view[0]);
                assert(rest@.map_values(|l: String| l@) =~= seq![first@]
                    + rest_view.drop_first());
            }
            rest
        }
    }
}

/// How one key character is written inside a quoted string.
pub open spec fn escape_one(c: char) -> Seq<char> {
    if c == '"' {
        seq!['\\', '"']
    } else if c == '\\' {
        seq!['\\', '\\']
    } else if c == '\n' {
        seq!['\\', 'n']
    } else if c == '\t' {
        seq!['\\', 't']
    } else if c == '\r' {
        seq!['\\', 'r']
    } else {
        seq![c]
    }
}

/// How a whole key is written inside a quoted string.
pub open spec fn escape_seq(k: Seq<char>) -> Seq<char>
    decreases k.len(),
{
    if k.len() == 0 {
        Seq::empty()
    } else {
        escape_one(k[0]) + escape_seq(k.drop_first())
    }
}

/// The characters accepted after a backslash.
pub open spec fn is_escape_code(c: char) -> bool {
    c == '"' || c == '\\' || c == 'n' || c == 't' || c == 'r'
}

/// The character an escape code stands for.
pub open spec fn unescape_one(c: char) -> char {
    if c == 'n' {
        '\n'
    } else if c == 't' {
        '\t'
    } else if c == 'r' {
        '\r'
    } else {
        c
    }
}

/// Reads a quoted string's body from position `i` (just after the opening
/// quote) up to its closing quote, undoing escapes; yields the key and the
/// position just past the closing quote.
pub open spec fn scan_string(l: Seq<char>, i: int) -> Option<(Seq<char>, int)>
    decreases l.len() - i,
{
    if i < 0 || i >= l.len() {
        None
    } else if l[i] == '"' {
        Some((Seq::<char>::empty(), i + 1))
    } else if l[i] == '\\' {
        if i + 1 < l.len() && is_escape_code(l[i + 1]) {
            match scan_string(l, i + 2) {
                Some(p) => Some((seq![unescape_one(l[i + 1])] + p.0, p.1)),
                None => None,
            }
        } else {
            None
        }
    } else {
        match scan_string(l, i + 1) {
            Some(p) => Some((seq![l[i]] + p.0, p.1)),
            None => None,
        }
    }
}

/// The executable mirror of `scan_string`.
fn scan_quoted(l: &str, i: usize) -> (r: Option<(String, usize)>)
    requires
        i <= l@.len(),
    ensures
        match r {
            Some(p) => scan_string(l@, i as int) == Some((p.0@, p.1 as int)) && i < p.1 <= l@.len(),
            None => scan_string(l@, i as int) is None,
        },
    decreases l@.len() - i,
{
    let len = l.unicode_len();
    if i >= len {
        None
    } else {
        let c = l.get_char(i);
        if c == '"' {
            Some((String::new(), i + 1))
        } else if c == '\\' {
            if i + 1 < len {
                let e = l.get_char(i + 1);
                if e == '"' || e == '\\' || e == 'n' || e == 't' || e == 'r' {
                    match scan_quoted(l, i + 2) {
                        Some((rest, j)) => {
                            let u: char = if e == 'n' {
                                '\n'
                            } else if e == 't' {
                                '\t'
                            } else if e == 'r' {
                                '\r'
                            } else {
                                e
                            };
                            let mut out = String::new();
                            push_char(&mut out, u);
                            out.append(rest.as_str());
                            proof {
                                assert(out@ =~= seq![unescape_one(l@[i + 1])] + rest@);
                            }
                            Some((out, j))
                        },
                        None => None,
                    }
                } else {
                    None
                }
            } else {
                None
            }
        } else {
            match scan_quoted(l, i + 1) {
                Some((rest, j)) => {
                    let mut out = String::new();
                    push_char(&mut out, c);
                    out.append(rest.as_str());
                    proof {
                        assert(out@ =~= seq![l@[i as int]] + rest@);
                    }
                    Some((out, j))
                },
                None => None,
            }
        }
    }
}

/// The characters of the tag section's header line.
pub open spec fn tag_header() -> Seq<char> {
    seq!['[', 'u', 'n', 'i', 'q', 'u', 'e', '_', 't', 'a', 'g', 's', ']']
}

/// The characters of the type section's header line.
pub open spec fn type_header() -> Seq<char> {
    seq!['[', 'u', 'n', 'i', 'q', 'u', 'e', '_', 't', 'y', 'p', 'e', '_', 't', 'a', 'g', 's', ']']
}

/// The header literals written by `encode` spell the header characters.
pub proof fn lemma_headers()
    ensures
        "[unique_tags]"@ == tag_header(),
        "[unique_type_tags]"@ == type_header(),
{
    reveal_strlit("[unique_tags]");
    reveal_strlit("[unique_type_tags]");
    assert("[unique_tags]"@ =~= tag_header());
    assert("[unique_type_tags]"@ =~= type_header());
}

/// What one line of the store means.
pub enum LineKind {
    Empty,
    TagHeader,
    TypeHeader,
    Pair(Seq<char>, u128),
    Bad,
}

/// Classifies a line: blank, a section header, a key-UUID pair written as
/// `"<key>" = "<uuid>"`, or ill-formed.
pub open spec fn classify_line(l: Seq<char>) -> LineKind {
    if l.len() == 0 {
        LineKind::Empty
    } else if l == tag_header() {
        LineKind::TagHeader
    } else if l == type_header() {
        LineKind::TypeHeader
    } else if l[0] == '"' {
        match scan_string(l, 1) {
            Some(p) => {
                let j = p.1;
                if l.len() - j > 3 && l[j] == ' ' && l[j + 1] == '=' && l[j + 2] == ' ' && l[j + 3]
                    == '"' {
                    match scan_string(l, j + 4) {
                        Some(q) => {
                            if q.1 == l.len() && (exists|n: u128| uuid_chars(n) == q.0) {
                                LineKind::Pair(p.0, choose|n: u128| uuid_chars(n) == q.0)
                            } else {
                                LineKind::Bad
                            }
                        },
                        None => LineKind::Bad,
                    }
                } else {
                    LineKind::Bad
                }
            },
            None => LineKind::Bad,
        }
    } else {
        LineKind::Bad
    }
}

/// The executable result of classifying a line.
pub(crate) enum LineItem {
    Empty,
    TagHeader,
    TypeHeader,
    Pair(String, u128),
    Bad,
}

/// What an executable classification means.
pub(crate) open spec fn line_item_view(it: LineItem) -> LineKind {
    match it {
        LineItem::Empty => LineKind::Empty,
        LineItem::TagHeader => LineKind::TagHeader,
        LineItem::TypeHeader => LineKind::TypeHeader,
        LineItem::Pair(k, u) => LineKind::Pair(k@, u),
        LineItem::Bad => LineKind::Bad,
    }
}

/// The executable mirror of `classify_line`.
fn classify(l: &str) -> (r: LineItem)
    ensures
        line_item_view(r) == classify_line(l@),
{
    proof {
        lemma_headers();
    }
    let len = l.unicode_len();
    if len == 0 {
        return LineItem::Empty;
    }
    if str_eq(l, "[unique_tags]") {
        return LineItem::TagHeader;
    }
    if str_eq(l, "[unique_type_tags]") {
        return LineItem::TypeHeader;
    }
    if l.get_char(0) != '"' {
        return LineItem::Bad;
    }
    match scan_quoted(l, 1) {
        None => LineItem::Bad,
        Some((k, j)) => {
            if len - j > 3 && l.get_char(j) == ' ' && l.get_char(j + 1) == '=' && l.get_char(j + 2)
                == ' ' && l.get_char(j + 3) == '"' {
                match scan_quoted(l, j + 4) {
                    None => LineItem::Bad,
                    Some((v, e)) => {
                        if e == len {
                            match parse_uuid(v.as_str()) {
                                Some(n) => {
                                    proof {
                                        let picked = choose|m: u128| uuid_chars(m) == v@;
                                        assert(uuid_chars(n) == v@);
                                        lemma_uuid_chars_injective(picked, n);
                                    }
                                    LineItem::Pair(k, n)
                                },
                                None => LineItem::Bad,
                            }
                        } else {
                            LineItem::Bad
                        }
                    },
                }
            } else {
                LineItem::Bad
            }
        },
    }
}

/// The two key-to-UUID maps a store's text denotes.
pub struct StoreModel {
    pub tags: Map<Seq<char>, u128>,
    pub types: Map<Seq<char>, u128>,
}

/// The model with both namespaces empty.
pub open spec fn empty_model() -> StoreModel {
    StoreModel { tags: Map::empty(), types: Map::empty() }
}

/// The map a namespace selects from a model.
pub open spec fn model_map(m: StoreModel, ns: Namespace) -> Map<Seq<char>, u128> {
    match ns {
        Namespace::Tag => m.tags,
        Namespace::Type => m.types,
    }
}

/// The model with the map of one namespace replaced.
pub open spec fn model_update(m: StoreModel, ns: Namespace, map: Map<Seq<char>, u128>) -> StoreModel {
    match ns {
        Namespace::Tag => StoreModel { tags: map, types: m.types },
        Namespace::Type => StoreModel { tags: m.tags, types: map },
    }
}

/// The decoder's state: which section headers were seen, which section the
/// following pair lines belong to, and the maps read so far.
pub struct DecodeSt {
    pub seen_tags: bool,
    pub seen_types: bool,
    pub cur: Option<Namespace>,
    pub model: StoreModel,
}

/// The decoder's starting state.
pub open spec fn init_decode_st() -> DecodeSt {
    DecodeSt { seen_tags: false, seen_types: false, cur: None, model: empty_model() }
}

/// One decoder state with the current section's map replaced.
pub open spec fn st_update(st: DecodeSt, ns: Namespace, map: Map<Seq<char>, u128>) -> DecodeSt {
    DecodeSt {
        seen_tags: st.seen_tags,
        seen_types: st.seen_types,
        cur: st.cur,
        model: model_update(st.model, ns, map),
    }
}

/// Runs the decoder over the lines from position `i`.  A repeated section
/// header, a pair line outside any section, a repeated key within a
/// section, or an ill-formed line refuses the whole text.
pub open spec fn decode_lines(ls: Seq<Seq<char>>, i: int, st: DecodeSt) -> Option<StoreModel>
    decreases ls.len() - i,
{
    if i < 0 || i >= ls.len() {
        Some(st.model)
    } else {
        match classify_line(ls[i]) {
            LineKind::Empty => decode_lines(ls, i + 1, st),
            LineKind::TagHeader => if st.seen_tags {
                None
            } else {
                decode_lines(
                    ls,
                    i + 1,
                    DecodeSt {
                        seen_tags: true,
                        seen_types: st.seen_types,
                        cur: Some(Namespace::Tag),
                        model: st.model,
                    },
                )
            },
            LineKind::TypeHeader => if st.seen_types {
                None
            } else {
                decode_lines(
                    ls,
                    i + 1,
                    DecodeSt {
                        seen_tags: st.seen_tags,
                        seen_types: true,
                        cur: Some(Namespace::Type),
                        model: st.model,
                    },
                )
            },
            LineKind::Pair(k, u) => match st.cur {
                None => None,
                Some(ns) => if model_map(st.model, ns).contains_key(k) {
                    None
                } else {
                    decode_lines(ls, i + 1, st_update(st, ns, model_map(st.model, ns).insert(k, u)))
                },
            },
            LineKind::Bad => None,
        }
    }
}

/// What a store's text denotes: its two maps, or nothing if ill-formed.
pub open spec fn decode_spec(s: Seq<char>) -> Option<StoreModel> {
    decode_lines(spec_lines(s), 0, init_decode_st())
}

/// The model a registry holds.
pub open spec fn reg_model(reg: Registry) -> StoreModel {
    StoreModel { tags: reg.tag_map(), types: reg.type_map() }
}

/// Parses a store's text into a registry.  Either section may be absent
/// (and is then empty); text that does not fit the schema is refused.
pub fn decode(s: &str) -> (r: Result<Registry, FormatError>)
    ensures
        match r {
            Ok(reg) => reg.wf() && decode_spec(s@) == Some(reg_model(reg)),
            Err(_) => decode_spec(s@) is None,
        },
{
    let lines = split_lines(s, 0);
    let ghost ls = spec_lines(s@);
    proof {
        assert(s@.skip(0) =~= s@);
    }
    let mut reg = Registry::new();
    let mut seen_tags = false;
    let mut seen_types = false;
    let mut cur: Option<Namespace> = None;
    let mut i: usize = 0;
    proof {
        assert(reg_model(reg) =~= empty_model());
        assert((DecodeSt { seen_tags, seen_types, cur, model: reg_model(reg) })
            == init_decode_st());
    }
    while i < lines.len()
        invariant
            i <= lines.len(),
            lines@.map_values(|l: String| l@) == ls,
            reg.wf(),
            decode_lines(ls, i as int, (DecodeSt { seen_tags, seen_types, cur, model: reg_model(reg) }))
                == decode_spec(s@),
        decreases lines.len() - i,
    {
        let ghost st = DecodeSt { seen_tags, seen_types, cur, model: reg_model(reg) };
        proof {
            assert(ls[i as int] == lines@.map_values(|l: String| l@)[i as int]);
        }
        match classify(lines[i].as_str()) {
            LineItem::Empty => {},
            LineItem::TagHeader => {
                if seen_tags {
                    return Err(FormatError);
                }
                seen_tags = true;
                cur = Some(Namespace::Tag);
            },
            LineItem::TypeHeader => {
                if seen_types {
                    return Err(FormatError);
                }
                seen_types = true;
                cur = Some(Namespace::Type);
            },
            LineItem::Pair(k, u) => {
                match cur {
                    None => {
                        return Err(FormatError);
                    },
                    Some(ns) => {
                        match reg.lookup(ns, k.as_str()) {
                            Some(_) => {
                                return Err(FormatError);
                            },
                            None => {
                                reg.insert(ns, k.as_str(), u);
                                proof {
                                    assert(reg_model(reg) == model_update(
                                        st.model,
                                        ns,
                                        model_map(st.model, ns).insert(k@, u),
                                    ));
                                }
                            },
                        }
                    },
                }
            },
            LineItem::Bad => {
                return Err(FormatError);
            },
        }
        i = i + 1;
        proof {
            assert(decode_lines(ls, i as int, (DecodeSt { seen_tags, seen_types, cur, model: reg_model(reg) }))
                == decode_lines(ls, i - 1, st));
        }
    }
    Ok(reg)
}

/// The line a key-UUID pair is written as.
pub open spec fn pair_line(k: Seq<char>, u: u128) -> Seq<char> {
    seq!['"'] + escape_seq(k) + seq!['"', ' ', '=', ' ', '"'] + uuid_chars(u) + seq!['"']
}

/// One pair line per pair, in order.
pub open spec fn pair_lines(ps: Seq<(Seq<char>, u128)>) -> Seq<Seq<char>> {
    ps.map_values(|p: (Seq<char>, u128)| pair_line(p.0, p.1))
}

/// The lines a registry with these pairs is written as.
pub open spec fn encode_lines(
    tags: Seq<(Seq<char>, u128)>,
    types: Seq<(Seq<char>, u128)>,
) -> Seq<Seq<char>> {
    seq![tag_header()] + pair_lines(tags) + seq![type_header()] + pair_lines(types)
}

/// The text a registry with these pairs is written as.
pub open spec fn encode_spec(
    tags: Seq<(Seq<char>, u128)>,
    types: Seq<(Seq<char>, u128)>,
) -> Seq<char> {
    lines_text(encode_lines(tags, types))
}

/// Appending one line to joined lines appends the line and a newline.
pub proof fn lemma_lines_text_push(ls: Seq<Seq<char>>, l: Seq<char>)
    ensures
        lines_text(ls.push(l)) == lines_text(ls) + l + seq!['\n'],
    decreases ls.len(),
{
    if ls.len() == 0 {
        assert(ls.push(l).drop_first() =~= Seq::<Seq<char>>::empty());
        assert(lines_text(Seq::<Seq<char>>::empty()) == Seq::<char>::empty());
        assert(ls.push(l)[0] == l);
        assert(lines_text(ls.push(l)) == l + seq!['\n'] + Seq::<char>::empty());
        assert(lines_text(ls.push(l)) =~= lines_text(ls) + l + seq!['\n']);
    } else {
        assert(ls.push(l).drop_first() =~= ls.drop_first().push(l));
        lemma_lines_text_push(ls.drop_first(), l);
        assert(ls.push(l)[0] == ls[0]);
        assert(lines_text(ls.push(l)) == ls[0] + seq!['\n'] + lines_text(ls.drop_first().push(l)));
        assert(lines_text(ls.push(l)) =~= lines_text(ls) + l + seq!['\n']);
    }
}

/// Escaping one more character appends its escape.
pub proof fn lemma_escape_snoc(s: Seq<char>, c: char)
    ensures
        escape_seq(s.push(c)) == escape_seq(s) + escape_one(c),
    decreases s.len(),
{
    if s.len() == 0 {
        assert(s.push(c).drop_first() =~= Seq::<char>::empty());
        assert(escape_seq(Seq::<char>::empty()) == Seq::<char>::empty());
        assert(s.push(c)[0] == c);
        assert(escape_seq(s.push(c)) == escape_one(c) + Seq::<char>::empty());
        assert(escape_seq(s.push(c)) =~= escape_seq(s) + escape_one(c));
    } else {
        assert(s.push(c).drop_first() =~= s.drop_first().push(c));
        lemma_escape_snoc(s.drop_first(), c);
        assert(s.push(c)[0] == s[0]);
        assert(escape_seq(s.push(c)) == escape_one(s[0]) + escape_seq(s.drop_first().push(c)));
        assert(escape_seq(s.push(c)) =~= escape_seq(s) + escape_one(c));
    }
}

/// Writes the escaped form of a key onto the end of a string.
fn escape_into(out: &mut String, k: &str)
    ensures
        final(out)@ == old(out)@ + escape_seq(k@),
{
    let len = k.unicode_len();
    let mut i: usize = 0;
    proof {
        assert(k@.take(0) =~= Seq::<char>::empty());
        assert(out@ =~= old(out)@ + escape_seq(k@.take(0)));
    }
    while i < len
        invariant
            i <= len,
            len == k@.len(),
            out@ == old(out)@ + escape_seq(k@.take(i as int)),
        decreases len - i,
    {
        let c = k.get_char(i);
        if c == '"' {
            push_char(out, '\\');
            push_char(out, '"');
        } else if c == '\\' {
            push_char(out, '\\');
            push_char(out, '\\');
        } else if c == '\n' {
            push_char(out, '\\');
            push_char(out, 'n');
        } else if c == '\t' {
            push_char(out, '\\');
            push_char(out, 't');
        } else if c == '\r' {
            push_char(out, '\\');
            push_char(out, 'r');
        } else {
            push_char(out, c);
        }
        proof {
            assert(k@.take(i as int + 1) =~= k@.take(i as int).push(k@[i as int]));
            lemma_escape_snoc(k@.take(i as int), k@[i as int]);
            assert(out@ =~= old(out)@ + escape_seq(k@.take(i as int + 1)));
        }
        i = i + 1;
    }
    proof {
        assert(k@.take(len as int) =~= k@);
    }
}

/// Renders a registry as store text: the tag section, then the type
/// section, each header and entry on its own newline-terminated line.
pub fn encode(reg: &Registry) -> (out: String)
    ensures
        out@ == encode_spec(reg.tag_pairs(), reg.type_pairs()),
{
    let mut out = String::new();
    let ghost mut done: Seq<Seq<char>> = seq![tag_header()];
    out.append("[unique_tags]");
    push_char(&mut out, '\n');
    proof {
        lemma_headers();
        assert(seq![tag_header()].drop_first() =~= Seq::<Seq<char>>::empty());
        assert(lines_text(Seq::<Seq<char>>::empty()) == Seq::<char>::empty());
        assert(lines_text(done) == done[0] + seq!['\n'] + lines_text(done.drop_first()));
        assert(out@ =~= lines_text(done));
        assert(done =~= seq![tag_header()] + pair_lines(reg.tag_pairs().take(0)));
    }
    let mut j: usize = 0;
    while j < reg.tags.len()
        invariant
            j <= reg.tags@.len(),
            out@ == lines_text(done),
            done == seq![tag_header()] + pair_lines(reg.tag_pairs().take(j as int)),
        decreases reg.tags@.len() - j,
    {
        let ghost done0 = done;
        let e = &reg.tags[j];
        push_char(&mut out, '"');
        escape_into(&mut out, e.key.as_str());
        push_char(&mut out, '"');
        push_char(&mut out, ' ');
        push_char(&mut out, '=');
        push_char(&mut out, ' ');
        push_char(&mut out, '"');
        let u = crate::uuid_text::format_uuid(e.id);
        out.append(u.as_str());
        push_char(&mut out, '"');
        push_char(&mut out, '\n');
        proof {
            let line = pair_line(e.key@, e.id);
            done = done0.push(line);
            lemma_lines_text_push(done0, line);
            assert(out@ =~= lines_text(done0) + line + seq!['\n']);
            assert(reg.tag_pairs()[j as int] == (e.key@, e.id));
            assert(pair_lines(reg.tag_pairs().take(j as int + 1)) =~= pair_lines(
                reg.tag_pairs().take(j as int),
            ).push(line));
            assert(done =~= seq![tag_header()] + pair_lines(reg.tag_pairs().take(j as int + 1)));
        }
        j = j + 1;
    }
    proof {
        assert(reg.tag_pairs().take(reg.tags@.len() as int) =~= reg.tag_pairs());
    }
    let ghost done_tags = done;
    out.append("[unique_type_tags]");
    push_char(&mut out, '\n');
    proof {
        lemma_headers();
        done = done_tags.push(type_header());
        lemma_lines_text_push(done_tags, type_header());
        assert(out@ =~= lines_text(done));
        assert(done =~= seq![tag_header()] + pair_lines(reg.tag_pairs()) + seq![type_header()]);
    }
    let ghost done_hdr = done;
    proof {
        assert(done =~= done_hdr + pair_lines(reg.type_pairs().take(0)));
    }
    let mut j2: usize = 0;
    while j2 < reg.types.len()
        invariant
            j2 <= reg.types@.len(),
            out@ == lines_text(done),
            done == done_hdr + pair_lines(reg.type_pairs().take(j2 as int)),
            done_hdr == seq![tag_header()] + pair_lines(reg.tag_pairs()) + seq![type_header()],
        decreases reg.types@.len() - j2,
    {
        let ghost done0 = done;
        let e = &reg.types[j2];
        push_char(&mut out, '"');
        escape_into(&mut out, e.key.as_str());
        push_char(&mut out, '"');
        push_char(&mut out, ' ');
        push_char(&mut out, '=');
        push_char(&mut out, ' ');
        push_char(&mut out, '"');
        let u = crate::uuid_text::format_uuid(e.id);
        out.append(u.as_str());
        push_char(&mut out, '"');
        push_char(&mut out, '\n');
        proof {
            let line = pair_line(e.key@, e.id);
            done = done0.push(line);
            lemma_lines_text_push(done0, line);
            assert(out@ =~= lines_text(done0) + line + seq!['\n']);
            assert(reg.type_pairs()[j2 as int] == (e.key@, e.id));
            assert(pair_lines(reg.type_pairs().take(j2 as int + 1)) =~= pair_lines(
                reg.type_pairs().take(j2 as int),
            ).push(line));
            assert(done =~= done_hdr + pair_lines(reg.type_pairs().take(j2 as int + 1)));
        }
        j2 = j2 + 1;
    }
    proof {
        assert(reg.type_pairs().take(reg.types@.len() as int) =~= reg.type_pairs());
        assert(done =~= encode_lines(reg.tag_pairs(), reg.type_pairs()));
    }
    out
}

/// The characters that are escaped inside a quoted string.
pub open spec fn is_special(c: char) -> bool {
    c == '"' || c == '\\' || c == '\n' || c == '\t' || c == '\r'
}

/// An escaped key never contains a raw newline.
pub proof fn lemma_escape_no_nl(k: Seq<char>)
    ensures
        forall|j: int| 0 <= j < escape_seq(k).len() ==> escape_seq(k)[j] != '\n',
    decreases k.len(),
{
    if k.len() > 0 {
        lemma_escape_no_nl(k.drop_first());
        let e0 = escape_one(k[0]);
        let rest = escape_seq(k.drop_first());
        assert forall|j: int| 0 <= j < escape_seq(k).len() implies escape_seq(k)[j] != '\n' by {
            if j < e0.len() {
                assert(escape_seq(k)[j] == e0[j]);
            } else {
                assert(escape_seq(k)[j] == rest[j - e0.len()]);
            }
        }
    }
}

/// The canonical UUID text contains no escaped or structural characters.
pub proof fn lemma_uuid_chars_plain(u: u128)
    ensures
        forall|j: int| 0 <= j < 36 ==> !is_special(#[trigger] uuid_chars(u)[j]),
{
    assert forall|j: int| 0 <= j < 36 implies !is_special(#[trigger] uuid_chars(u)[j]) by {
        assert(uuid_chars(u)[j] == crate::uuid_text::uuid_char_at(u, j));
        if !crate::uuid_text::is_hyphen_pos(j) {
            crate::uuid_text::lemma_nibble_bound(u, crate::uuid_text::digit_index(j));
        }
    }
}

/// Escaping text without special characters leaves it unchanged.
pub proof fn lemma_escape_id(s: Seq<char>)
    requires
        forall|j: int| 0 <= j < s.len() ==> !is_special(#[trigger] s[j]),
    ensures
        escape_seq(s) == s,
    decreases s.len(),
{
    if s.len() == 0 {
        assert(escape_seq(s) =~= s);
    } else {
        assert(!is_special(s[0]));
        lemma_escape_id(s.drop_first());
        assert(escape_seq(s) =~= s);
    }
}

/// A pair line never contains a raw newline.
pub proof fn lemma_pair_line_no_nl(k: Seq<char>, u: u128)
    ensures
        forall|j: int| 0 <= j < pair_line(k, u).len() ==> pair_line(k, u)[j] != '\n',
{
    let l = pair_line(k, u);
    let esc = escape_seq(k);
    lemma_escape_no_nl(k);
    lemma_uuid_chars_plain(u);
    assert forall|j: int| 0 <= j < l.len() implies l[j] != '\n' by {
        if 1 <= j < 1 + esc.len() {
            assert(l[j] == esc[j - 1]);
        } else if 1 + esc.len() + 5 <= j < 1 + esc.len() + 5 + 36 {
            assert(l[j] == uuid_chars(u)[j - (1 + esc.len() + 5)]);
            assert(!is_special(uuid_chars(u)[j - (1 + esc.len() + 5)]));
        }
    }
}

/// The section headers contain no newline.
pub proof fn lemma_headers_no_nl()
    ensures
        forall|j: int| 0 <= j < tag_header().len() ==> tag_header()[j] != '\n',
        forall|j: int| 0 <= j < type_header().len() ==> type_header()[j] != '\n',
{
}

/// Scanning text that starts with an escaped key and its closing quote
/// recovers the key.
pub proof fn lemma_scan_escaped(l: Seq<char>, i: int, k: Seq<char>)
    requires
        0 <= i,
        i + escape_seq(k).len() + 1 <= l.len(),
        l.subrange(i, i + escape_seq(k).len() as int) == escape_seq(k),
        l[i + escape_seq(k).len() as int] == '"',
    ensures
        scan_string(l, i) == Some((k, i + escape_seq(k).len() + 1)),
    decreases k.len(),
{
    let esc = escape_seq(k);
    assert forall|j: int| 0 <= j < esc.len() implies l[i + j] == esc[j] by {
        assert(l.subrange(i, i + esc.len() as int)[j] == l[i + j]);
    }
    if k.len() == 0 {
        assert(l[i] == '"');
        assert(k =~= Seq::<char>::empty());
    } else {
        let c = k[0];
        let e0 = escape_one(c);
        let rest = escape_seq(k.drop_first());
        assert(esc == e0 + rest);
        assert forall|j: int| 0 <= j < rest.len() implies l[i + e0.len() + j] == rest[j] by {
            assert(esc[e0.len() + j] == rest[j]);
        }
        assert(l.subrange(
            i + e0.len(),
            i + e0.len() + rest.len() as int,
        ) =~= rest);
        if is_special(c) {
            assert(e0.len() == 2);
            assert(esc[0] == e0[0]);
            assert(esc[1] == e0[1]);
            assert(l[i + 0] == esc[0]);
            assert(l[i + 1] == esc[1]);
            assert(l[i] == e0[0]);
            assert(e0[0] == '\\');
            assert(l[i + 1] == e0[1]);
            assert(is_escape_code(e0[1]));
            assert(unescape_one(e0[1]) == c);
            lemma_scan_escaped(l, i + 2, k.drop_first());
            assert(seq![c] + k.drop_first() =~= k);
        } else {
            assert(e0.len() == 1);
            assert(esc[0] == e0[0]);
            assert(l[i + 0] == esc[0]);
            assert(l[i] == c);
            assert(c != '"' && c != '\\');
            lemma_scan_escaped(l, i + 1, k.drop_first());
            assert(seq![c] + k.drop_first() =~= k);
        }
    }
}

/// A header line classifies as that header.
pub proof fn lemma_classify_headers()
    ensures
        classify_line(tag_header()) == LineKind::TagHeader,
        classify_line(type_header()) == LineKind::TypeHeader,
        classify_line(Seq::<char>::empty()) == LineKind::Empty,
{
    assert(tag_header().len() == 13);
    assert(type_header().len() == 18);
    assert(type_header() != tag_header());
}

/// An encoded pair line classifies as that pair.
pub proof fn lemma_classify_pair_line(k: Seq<char>, u: u128)
    ensures
        classify_line(pair_line(k, u)) == LineKind::Pair(k, u),
{
    let l = pair_line(k, u);
    let esc = escape_seq(k);
    let uu = uuid_chars(u);
    assert(uu.len() == 36);
    assert(l.len() == esc.len() + 43);
    assert(l[0] == '"');
    assert(tag_header()[0] == '[');
    assert(type_header()[0] == '[');
    assert(l != tag_header());
    assert(l != type_header());
    // the key's quoted string
    assert forall|j: int| 0 <= j < esc.len() implies l[1 + j] == esc[j] by {
        assert(l[1 + j] == (seq!['"'] + esc)[1 + j]);
    }
    assert(l.subrange(1, 1 + esc.len() as int) =~= esc);
    assert(l[1 + esc.len() as int] == '"');
    lemma_scan_escaped(l, 1, k);
    let j = 2 + esc.len() as int;
    assert(scan_string(l, 1) == Some((k, j)));
    // the ` = "` separator
    assert(l[j] == ' ');
    assert(l[j + 1] == '=');
    assert(l[j + 2] == ' ');
    assert(l[j + 3] == '"');
    assert(l.len() - j > 3);
    // the UUID's quoted string
    lemma_uuid_chars_plain(u);
    lemma_escape_id(uu);
    assert forall|t: int| 0 <= t < 36 implies l[j + 4 + t] == uu[t] by {
        assert(l[j + 4 + t] == (seq!['"'] + esc + seq!['"', ' ', '=', ' ', '"'] + uu)[j + 4 + t]);
    }
    assert(l.subrange(j + 4, j + 4 + 36) =~= uu);
    assert(l[j + 4 + 36] == '"');
    lemma_scan_escaped(l, j + 4, uu);
    assert(scan_string(l, j + 4) == Some((uu, l.len() as int)));
    // the UUID value
    assert(uuid_chars(u) == uu);
    let picked = choose|n: u128| uuid_chars(n) == uu;
    assert(uuid_chars(picked) == uu);
    lemma_uuid_chars_injective(picked, u);
}

/// Inserting a list of pairs into a map, first pair first.
pub open spec fn map_extend(
    m: Map<Seq<char>, u128>,
    ps: Seq<(Seq<char>, u128)>,
) -> Map<Seq<char>, u128>
    decreases ps.len(),
{
    if ps.len() == 0 {
        m
    } else {
        map_extend(m.insert(ps[0].0, ps[0].1), ps.drop_first())
    }
}

/// Extending by one more pair inserts it last.
pub proof fn lemma_map_extend_push(
    m: Map<Seq<char>, u128>,
    ps: Seq<(Seq<char>, u128)>,
    p: (Seq<char>, u128),
)
    ensures
        map_extend(m, ps.push(p)) == map_extend(m, ps).insert(p.0, p.1),
    decreases ps.len(),
{
    if ps.len() == 0 {
        assert(ps.push(p)[0] == p);
        assert(ps.push(p).drop_first() =~= Seq::<(Seq<char>, u128)>::empty());
        assert(map_extend(m, ps.push(p)) == map_extend(
            m.insert(p.0, p.1),
            ps.push(p).drop_first(),
        ));
        assert(map_extend(m.insert(p.0, p.1), Seq::<(Seq<char>, u128)>::empty()) == m.insert(
            p.0,
            p.1,
        ));
        assert(map_extend(m, ps) == m);
    } else {
        assert(ps.push(p)[0] == ps[0]);
        assert(ps.push(p).drop_first() =~= ps.drop_first().push(p));
        lemma_map_extend_push(m.insert(ps[0].0, ps[0].1), ps.drop_first(), p);
    }
}

/// Inserting a list of pairs into the empty map gives the list's map.
pub proof fn lemma_map_extend_assoc(ps: Seq<(Seq<char>, u128)>)
    ensures
        map_extend(Map::<Seq<char>, u128>::empty(), ps) == assoc_map(ps),
    decreases ps.len(),
{
    if ps.len() > 0 {
        assert(ps.drop_last().push(ps.last()) =~= ps);
        lemma_map_extend_push(Map::<Seq<char>, u128>::empty(), ps.drop_last(), ps.last());
        lemma_map_extend_assoc(ps.drop_last());
    }
}

/// Running the decoder over a run of pair lines inserts exactly those
/// pairs into the open section.
pub proof fn lemma_decode_pair_lines(
    ls: Seq<Seq<char>>,
    i: int,
    ps: Seq<(Seq<char>, u128)>,
    st: DecodeSt,
    ns: Namespace,
)
    requires
        st.cur == Some(ns),
        0 <= i,
        i + ps.len() <= ls.len(),
        forall|t: int| 0 <= t < ps.len() ==> ls[i + t] == pair_line(ps[t].0, ps[t].1),
        distinct_keys(ps),
        forall|t: int| 0 <= t < ps.len() ==> !model_map(st.model, ns).contains_key(ps[t].0),
    ensures
        decode_lines(ls, i, st) == decode_lines(
            ls,
            i + ps.len(),
            st_update(st, ns, map_extend(model_map(st.model, ns), ps)),
        ),
    decreases ps.len(),
{
    if ps.len() == 0 {
        assert(st_update(st, ns, map_extend(model_map(st.model, ns), ps)) == st);
    } else {
        let m0 = model_map(st.model, ns);
        lemma_classify_pair_line(ps[0].0, ps[0].1);
        assert(classify_line(ls[i]) == LineKind::Pair(ps[0].0, ps[0].1));
        let st1 = st_update(st, ns, m0.insert(ps[0].0, ps[0].1));
        assert(decode_lines(ls, i, st) == decode_lines(ls, i + 1, st1));
        assert(st1.cur == Some(ns));
        assert(model_map(st1.model, ns) == m0.insert(ps[0].0, ps[0].1));
        assert forall|t: int| 0 <= t < ps.drop_first().len() implies ls[i + 1 + t] == pair_line(
            ps.drop_first()[t].0,
            ps.drop_first()[t].1,
        ) by {
            assert(ps.drop_first()[t] == ps[t + 1]);
        }
        assert(distinct_keys(ps.drop_first()));
        assert forall|t: int| 0 <= t < ps.drop_first().len() implies !model_map(
            st1.model,
            ns,
        ).contains_key(ps.drop_first()[t].0) by {
            assert(ps.drop_first()[t] == ps[t + 1]);
            assert(ps[t + 1].0 != ps[0].0);
        }
        lemma_decode_pair_lines(ls, i + 1, ps.drop_first(), st1, ns);
        assert(map_extend(model_map(st1.model, ns), ps.drop_first()) == map_extend(m0, ps));
        assert(st_update(st1, ns, map_extend(m0, ps)) == st_update(st, ns, map_extend(m0, ps)));
    }
}

/// The model of a pair of association lists.
pub open spec fn pairs_model(
    tags: Seq<(Seq<char>, u128)>,
    types: Seq<(Seq<char>, u128)>,
) -> StoreModel {
    StoreModel { tags: assoc_map(tags), types: assoc_map(types) }
}

/// Decoding what `encode` writes reproduces exactly the encoded pairs:
/// the store text is a faithful rendering of the registry.
pub proof fn lemma_store_round_trip(tags: Seq<(Seq<char>, u128)>, types: Seq<(Seq<char>, u128)>)
    requires
        distinct_keys(tags),
        distinct_keys(types),
    ensures
        decode_spec(encode_spec(tags, types)) == Some(pairs_model(tags, types)),
{
    let ls = encode_lines(tags, types);
    let nt = tags.len() as int;
    let ny = types.len() as int;
    assert(ls.len() == 2 + nt + ny);
    assert forall|a: int, j: int|
        0 <= a < ls.len() && 0 <= j < ls[a].len() implies #[trigger] ls[a][j] != '\n' by {
        lemma_headers_no_nl();
        if a == 0 {
            assert(ls[a] == tag_header());
        } else if a < 1 + nt {
            assert(ls[a] == pair_lines(tags)[a - 1]);
            assert(ls[a] == pair_line(tags[a - 1].0, tags[a - 1].1));
            lemma_pair_line_no_nl(tags[a - 1].0, tags[a - 1].1);
        } else if a == 1 + nt {
            assert(ls[a] == type_header());
        } else {
            assert(ls[a] == pair_lines(types)[a - 2 - nt]);
            assert(ls[a] == pair_line(types[a - 2 - nt].0, types[a - 2 - nt].1));
            lemma_pair_line_no_nl(types[a - 2 - nt].0, types[a - 2 - nt].1);
        }
    }
    lemma_lines_round_trip(ls);
    let full = ls + seq![Seq::<char>::empty()];
    assert(spec_lines(encode_spec(tags, types)) == full);
    lemma_classify_headers();
    // the tag header opens the tag section
    let st0 = init_decode_st();
    assert(full[0] == tag_header());
    let st1 = DecodeSt {
        seen_tags: true,
        seen_types: false,
        cur: Some(Namespace::Tag),
        model: empty_model(),
    };
    assert(decode_lines(full, 0, st0) == decode_lines(full, 1, st1));
    // the tag pairs fill the tag map
    assert forall|t: int| 0 <= t < nt implies full[1 + t] == pair_line(tags[t].0, tags[t].1) by {
        assert(full[1 + t] == pair_lines(tags)[t]);
    }
    lemma_decode_pair_lines(full, 1, tags, st1, Namespace::Tag);
    let st2 = st_update(st1, Namespace::Tag, map_extend(Map::empty(), tags));
    assert(decode_lines(full, 1, st1) == decode_lines(full, 1 + nt, st2));
    // the type header opens the type section
    assert(full[1 + nt] == type_header());
    let st3 = DecodeSt {
        seen_tags: true,
        seen_types: true,
        cur: Some(Namespace::Type),
        model: st2.model,
    };
    assert(decode_lines(full, 1 + nt, st2) == decode_lines(full, 2 + nt, st3));
    // the type pairs fill the type map
    assert forall|t: int| 0 <= t < ny implies full[2 + nt + t] == pair_line(
        types[t].0,
        types[t].1,
    ) by {
        assert(full[2 + nt + t] == pair_lines(types)[t]);
    }
    assert(model_map(st3.model, Namespace::Type) =~= Map::<Seq<char>, u128>::empty());
    lemma_decode_pair_lines(full, 2 + nt, types, st3, Namespace::Type);
    let st4 = st_update(st3, Namespace::Type, map_extend(Map::empty(), types));
    assert(decode_lines(full, 2 + nt, st3) == decode_lines(full, 2 + nt + ny, st4));
    // the trailing empty line, then the end
    assert(full[2 + nt + ny] == Seq::<char>::empty());
    assert(decode_lines(full, 2 + nt + ny, st4) == decode_lines(full, 3 + nt + ny, st4));
    assert(decode_lines(full, 3 + nt + ny, st4) == Some(st4.model));
    lemma_map_extend_assoc(tags);
    lemma_map_extend_assoc(types);
    assert(st4.model == pairs_model(tags, types));
}

/// Absent or empty store text decodes to the empty registry: a missing
/// store is an empty one, not an error.
pub proof fn lemma_decode_empty()
    ensures
        decode_spec(Seq::<char>::empty()) == Some(empty_model()),
{
    let ls = seq![Seq::<char>::empty()];
    assert(spec_lines(Seq::<char>::empty()) == ls);
    lemma_classify_headers();
    assert(decode_lines(ls, 0, init_decode_st()) == decode_lines(ls, 1, init_decode_st()));
    assert(decode_lines(ls, 1, init_decode_st()) == Some(empty_model()));
}

} // verus!
