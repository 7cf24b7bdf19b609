//! Streaming property-list walker: follows element open/close events to
//! track the current element path and, at one fixed watched path, pairs each
//! label string with the URL string that follows it.

use vstd::prelude::*;
use vstd::string::StrSliceExecFns;

verus! {

/// One parse event of an XML tokenizer, reduced to what the walk reads:
/// element opens carry the local element name, text events carry the
/// character content, and a tokenizer error ends the stream.
#[derive(Debug, Clone, PartialEq, Eq)]
pub enum Event {
    /// An element opens; the walk pushes its name onto the path.
    Open(String),
    /// An element closes; the walk pops the path.
    Close,
    /// Text content at the current path.
    Text(String),
    /// The tokenizer failed; the walk stops here and keeps what it has.
    Error,
    /// Any other event; the walk ignores it.
    Other,
}

/// The state of one walk: the current element path, the pending label, and
/// the pairs emitted so far.
#[verifier::ext_equal]
pub struct WalkState {
    pub path: Seq<Seq<char>>,
    pub label: Seq<char>,
    pub pairs: Seq<(Seq<char>, Seq<char>)>,
}

/// The fixed element path at which text is read: a string leaf nested in an
/// array, in a dict, in the document root.
pub open spec fn watched_path() -> Seq<Seq<char>> {
    seq!["plist"@, "dict"@, "array"@, "string"@]
}

/// A string is URL-shaped when it starts with the scheme prefix "http".
pub open spec fn is_url(s: Seq<char>) -> bool {
    s.len() >= 4 && s[0] == 'h' && s[1] == 't' && s[2] == 't' && s[3] == 'p'
}

/// The element names of a path, as character sequences.
pub open spec fn path_view(p: Seq<String>) -> Seq<Seq<char>> {
    p.map_values(|s: String| s@)
}

/// The views of a sequence of emitted pairs.
pub open spec fn pairs_view(ps: Seq<(String, String)>) -> Seq<(Seq<char>, Seq<char>)> {
    ps.map_values(|p: (String, String)| (p.0@, p.1@))
}

/// The state at the start of a walk: empty path, empty pending label, no
/// pairs emitted.
pub open spec fn init_walk() -> WalkState {
    WalkState { path: Seq::empty(), label: Seq::empty(), pairs: Seq::empty() }
}

/// One transition of the walk: push on open, pop on close, and at the
/// watched path store a label or emit a pair. A URL leaves the pending label
/// in place; a label overwrites the previous one.
pub open spec fn walk_step(st: WalkState, ev: Event) -> WalkState {
    match ev {
        Event::Open(name) => WalkState { path: st.path.push(name@), ..st },
        Event::Close => if st.path.len() > 0 {
            WalkState { path: st.path.subrange(0, st.path.len() - 1), ..st }
        } else {
            st
        },
        Event::Text(s) => if st.path == watched_path() {
            if is_url(s@) {
                WalkState { pairs: st.pairs.push((st.label, s@)), ..st }
            } else {
                WalkState { label: s@, ..st }
            }
        } else {
            st
        },
        Event::Error => st,
        Event::Other => st,
    }
}

/// The walk over an event sequence from a given state: steps through the
/// events in order and stops at the first tokenizer error.
pub open spec fn walk_from(st: WalkState, evs: Seq<Event>) -> WalkState
    decreases evs.len(),
{
    if evs.len() == 0 {
        st
    } else if evs[0] is Error {
        st
    } else {
        walk_from(walk_step(st, evs[0]), evs.subrange(1, evs.len() as int))
    }
}

/// The pairs that a whole walk over `evs` emits, in emission order.
pub open spec fn walk_pairs(evs: Seq<Event>) -> Seq<(Seq<char>, Seq<char>)> {
    walk_from(init_walk(), evs).pairs
}

/// Character-by-character string equality, so that element names can be
/// compared against the watched path.
fn str_eq(a: &str, b: &str) -> (r: bool)
    ensures
        r == (a@ == b@),
{
    let alen: usize = a.unicode_len();
    let blen: usize = b.unicode_len();
    if alen != blen {
        return false;
    }
    let mut k: usize = 0;
    while k < alen
        invariant
            alen == a@.len(),
            alen == b@.len(),
            k <= alen,
            forall|t: int| 0 <= t < k ==> a@[t] == b@[t],
        decreases alen - k,
    {
        if a.get_char(k) != b.get_char(k) {
            return false;
        }
        k = k + 1;
    }
    proof {
        assert(a@ =~= b@);
    }
    true
}

/// Whether the current element path is exactly the watched path.
fn is_watched(path: &Vec<String>) -> (r: bool)
    ensures
        r == (path_view(path@) == watched_path()),
{
    proof {
        assert(path_view(path@).len() == path@.len());
    }
    if path.len() != 4 {
        return false;
    }
    let e0 = str_eq(path[0].as_str(), "plist");
    let e1 = str_eq(path[1].as_str(), "dict");
    let e2 = str_eq(path[2].as_str(), "array");
    let e3 = str_eq(path[3].as_str(), "string");
    let r = e0 && e1 && e2 && e3;
    proof {
        assert(watched_path()[0] == "plist"@);
        assert(watched_path()[1] == "dict"@);
        assert(watched_path()[2] == "array"@);
        assert(watched_path()[3] == "string"@);
        assert(forall|i: int| 0 <= i < 4 ==> path_view(path@)[i] == path@[i]@);
        if r {
            assert(path_view(path@) =~~= watched_path());
        } else {
            assert(path_view(path@) != watched_path());
        }
    }
    r
}

/// Whether a text value is URL-shaped: it starts with "http".
fn is_url_text(s: &str) -> (r: bool)
    ensures
        r == is_url(s@),
{
    if s.unicode_len() < 4 {
        return false;
    }
    s.get_char(0) == 'h' && s.get_char(1) == 't' && s.get_char(2) == 't' && s.get_char(3) == 'p'
}

/// Walks an event stream and returns the (label, URL) pairs found at the
/// watched path, in document order: each URL-shaped string leaf is paired
/// with the most recent label before it (or the empty label if none), and a
/// tokenizer error stops the walk, keeping the pairs collected so far.
pub fn extract_pairs(events: &Vec<Event>) -> (r: Vec<(String, String)>)
    ensures
        pairs_view(r@) == walk_pairs(events@),
{
    let ghost n = events@.len() as int;
    let mut path: Vec<String> = Vec::new();
    let mut label: String = String::new();
    let mut out: Vec<(String, String)> = Vec::new();
    let mut idx: usize = 0;
    proof {
        assert(path_view(path@) =~= init_walk().path);
        assert(pairs_view(out@) =~= init_walk().pairs);
        assert((WalkState { path: path_view(path@), label: label@, pairs: pairs_view(out@) })
            =~~= init_walk());
        assert(events@.subrange(0, n) =~= events@);
    }
    while idx < events.len()
        invariant
            n == events@.len(),
            idx <= events@.len(),
            walk_from(init_walk(), events@) == walk_from(
                (WalkState { path: path_view(path@), label: label@, pairs: pairs_view(out@) }),
                events@.subrange(idx as int, n),
            ),
        ensures
            pairs_view(out@) == walk_pairs(events@),
        decreases n - idx,
    {
        let ghost st = WalkState { path: path_view(path@), label: label@, pairs: pairs_view(out@) };
        let ghost rest = events@.subrange(idx as int, n);
        proof {
            assert(rest[0] == events@[idx as int]);
            assert(rest.subrange(1, rest.len() as int) =~= events@.subrange(idx as int + 1, n));
        }
        match &events[idx] {
            Event::Open(name) => {
                path.push(name.clone());
                proof {
                    assert(path_view(path@) =~= st.path.push(name@));
                    assert(walk_step(st, events@[idx as int]) =~~= (WalkState {
                        path: path_view(path@),
                        label: label@,
                        pairs: pairs_view(out@),
                    }));
                }
            },
            Event::Close => {
                let _popped = path.pop();
                proof {
                    if st.path.len() > 0 {
                        assert(path_view(path@) =~= st.path.subrange(0, st.path.len() - 1));
                    } else {
                        assert(path_view(path@) =~= st.path);
                    }
                    assert(walk_step(st, events@[idx as int]) =~~= (WalkState {
                        path: path_view(path@),
                        label: label@,
                        pairs: pairs_view(out@),
                    }));
                }
            },
            Event::Text(s) => {
                if is_watched(&path) {
                    if is_url_text(s.as_str()) {
                        out.push((label.clone(), s.clone()));
                        proof {
                            assert(pairs_view(out@) =~= st.pairs.push((st.label, s@)));
                        }
                    } else {
                        label = s.clone();
                    }
                }
                proof {
                    assert(walk_step(st, events@[idx as int]) =~~= (WalkState {
                        path: path_view(path@),
                        label: label@,
                        pairs: pairs_view(out@),
                    }));
                }
            },
            Event::Error => {
                proof {
                    assert(walk_from(st, rest) == st);
                }
                break ;
            },
            Event::Other => {
                proof {
                    assert(walk_step(st, events@[idx as int]) == st);
                }
            },
        }
        idx = idx + 1;
    }
    out
}

/// The parse events that the XML tokenizer produces for a document, reduced
/// to the event kinds the walk reads; the stream depends on the document
/// bytes alone.
pub uninterp spec fn xml_events_of(bytes: Seq<u8>) -> Seq<Event>;

/// Relies on `xml::reader::EventReader`: tokenizes an XML document into a
/// stream of parse events, deterministically in the document bytes; after
/// reporting an error its iterator stops producing events.
#[verifier::external_body]
fn parse_xml_events(xml: &[u8]) -> (r: Vec<Event>)
    ensures
        r@ == xml_events_of(xml@),
{
    let mut out = Vec::new();
    for e in xml::reader::EventReader::new(xml) {
        match e {
            Ok(xml::reader::XmlEvent::StartElement { name, .. }) => {
                out.push(Event::Open(name.local_name))
            },
            Ok(xml::reader::XmlEvent::EndElement { .. }) => out.push(Event::Close),
            Ok(xml::reader::XmlEvent::Characters(s)) => out.push(Event::Text(s)),
            Ok(_) => out.push(Event::Other),
            Err(_) => out.push(Event::Error),
        }
    }
    out
}

/// Tokenizes an XML document and walks its events: returns the (label, URL)
/// pairs found at the watched path, in document order.
pub fn extract_pairs_from_xml(xml: &[u8]) -> (r: Vec<(String, String)>)
    ensures
        pairs_view(r@) == walk_pairs(xml_events_of(xml@)),
{
    let events = parse_xml_events(xml);
    extract_pairs(&events)
}

/// Law: the walk is deterministic — two runs over the same event stream
/// emit identical pairs, in the same order.
pub proof fn lemma_extract_pairs_idempotent(
    evs: Seq<Event>,
    r1: Seq<(String, String)>,
    r2: Seq<(String, String)>,
)
    requires
        pairs_view(r1) == walk_pairs(evs),
        pairs_view(r2) == walk_pairs(evs),
    ensures
        pairs_view(r1) == pairs_view(r2),
{
}

/// The element path enclosing the watched string leaves: the document root,
/// a dict, an array.
pub open spec fn array_path() -> Seq<Seq<char>> {
    seq!["plist"@, "dict"@, "array"@]
}

/// An event stream that represents a document whose watched array holds
/// exactly `n` string leaves: the three enclosing elements open, `n` string
/// leaves each open, carry text and close, and the three elements close.
pub open spec fn string_leaf_stream(evs: Seq<Event>, n: int) -> bool {
    &&& n >= 0
    &&& evs.len() == 6 + 3 * n
    &&& (evs[0] matches Event::Open(nm) && nm@ == "plist"@)
    &&& (evs[1] matches Event::Open(nm) && nm@ == "dict"@)
    &&& (evs[2] matches Event::Open(nm) && nm@ == "array"@)
    &&& (forall|i: int|
        0 <= i < n ==> (#[trigger] evs[3 + 3 * i] matches Event::Open(nm) && nm@ == "string"@))
    &&& (forall|i: int| 0 <= i < n ==> #[trigger] evs[4 + 3 * i] is Text)
    &&& (forall|i: int| 0 <= i < n ==> #[trigger] evs[5 + 3 * i] is Close)
    &&& evs[3 + 3 * n] is Close
    &&& evs[4 + 3 * n] is Close
    &&& evs[5 + 3 * n] is Close
}

/// The text of the string leaf at position `i` of the watched array.
pub open spec fn leaf_at(evs: Seq<Event>, i: int) -> Seq<char> {
    match evs[4 + 3 * i] {
        Event::Text(s) => s@,
        _ => Seq::empty(),
    }
}

/// The texts of the `n` string leaves of the watched array, in document
/// order.
pub open spec fn leaves_of(evs: Seq<Event>, n: int) -> Seq<Seq<char>>
    recommends
        n >= 0,
{
    Seq::new(n as nat, |i: int| leaf_at(evs, i))
}

/// The pairs that a sequence of string leaves yields under the pairing
/// policy, starting from a pending label: a URL-shaped leaf emits the pair
/// (label, leaf) and keeps the label; any other leaf becomes the new label.
pub open spec fn pairing_from(leaves: Seq<Seq<char>>, label: Seq<char>) -> Seq<
    (Seq<char>, Seq<char>),
>
    decreases leaves.len(),
{
    if leaves.len() == 0 {
        Seq::empty()
    } else if is_url(leaves[0]) {
        seq![(label, leaves[0])] + pairing_from(leaves.subrange(1, leaves.len() as int), label)
    } else {
        pairing_from(leaves.subrange(1, leaves.len() as int), leaves[0])
    }
}

/// The walk over the leaf blocks from position `k` on, and the three closing
/// events, emits the pairs of the remaining leaves under the pairing policy.
proof fn lemma_walk_leaf_blocks(evs: Seq<Event>, n: int, k: int, st: WalkState)
    requires
        string_leaf_stream(evs, n),
        0 <= k <= n,
        st.path == array_path(),
    ensures
        walk_from(st, evs.subrange(3 + 3 * k, evs.len() as int)).pairs == st.pairs + pairing_from(
            leaves_of(evs, n).subrange(k, n),
            st.label,
        ),
    decreases n - k,
{
    let len = evs.len() as int;
    let rest = evs.subrange(3 + 3 * k, len);
    if k == n {
        assert(rest.len() == 3);
        assert(rest[0] == evs[3 + 3 * n]);
        let st1 = walk_step(st, rest[0]);
        let rest1 = rest.subrange(1, rest.len() as int);
        assert(rest1[0] == evs[4 + 3 * n]);
        let st2 = walk_step(st1, rest1[0]);
        let rest2 = rest1.subrange(1, rest1.len() as int);
        assert(rest2[0] == evs[5 + 3 * n]);
        let st3 = walk_step(st2, rest2[0]);
        let rest3 = rest2.subrange(1, rest2.len() as int);
        assert(rest3.len() == 0);
        assert(walk_from(st, rest) == walk_from(st1, rest1));
        assert(walk_from(st1, rest1) == walk_from(st2, rest2));
        assert(walk_from(st2, rest2) == walk_from(st3, rest3));
        assert(walk_from(st3, rest3) == st3);
        assert(st3.pairs == st.pairs);
        assert(leaves_of(evs, n).subrange(n, n) =~= Seq::<Seq<char>>::empty());
        assert(st.pairs + pairing_from(Seq::empty(), st.label) =~= st.pairs);
    } else {
        assert(evs[3 + 3 * k] matches Event::Open(nm) && nm@ == "string"@);
        assert(evs[4 + 3 * k] is Text);
        assert(evs[5 + 3 * k] is Close);
        assert(rest[0] == evs[3 + 3 * k]);
        let st1 = walk_step(st, rest[0]);
        assert(st1.path =~~= watched_path());
        let rest1 = rest.subrange(1, rest.len() as int);
        assert(rest1[0] == evs[4 + 3 * k]);
        let s = leaf_at(evs, k);
        let st2 = walk_step(st1, rest1[0]);
        let rest2 = rest1.subrange(1, rest1.len() as int);
        assert(rest2[0] == evs[5 + 3 * k]);
        let st3 = walk_step(st2, rest2[0]);
        let rest3 = rest2.subrange(1, rest2.len() as int);
        assert(st3.path =~~= array_path());
        assert(rest3 =~= evs.subrange(3 + 3 * (k + 1), len));
        assert(walk_from(st, rest) == walk_from(st1, rest1));
        assert(walk_from(st1, rest1) == walk_from(st2, rest2));
        assert(walk_from(st2, rest2) == walk_from(st3, rest3));
        lemma_walk_leaf_blocks(evs, n, k + 1, st3);
        let leaves = leaves_of(evs, n);
        assert(leaves.subrange(k, n)[0] == leaves[k]);
        assert(leaves[k] == s);
        assert(leaves.subrange(k, n).subrange(1, n - k) =~= leaves.subrange(k + 1, n));
        if is_url(s) {
            assert(st2.pairs == st.pairs.push((st.label, s)));
            assert(st3.pairs == st.pairs.push((st.label, s)));
            assert(st3.label == st.label);
            assert(pairing_from(leaves.subrange(k, n), st.label) == seq![(st.label, s)]
                + pairing_from(leaves.subrange(k + 1, n), st.label));
            assert(st.pairs.push((st.label, s)) + pairing_from(leaves.subrange(k + 1, n), st.label)
                =~= st.pairs + (seq![(st.label, s)] + pairing_from(
                leaves.subrange(k + 1, n),
                st.label,
            )));
        } else {
            assert(st3.pairs == st.pairs);
            assert(st3.label == s);
            assert(pairing_from(leaves.subrange(k, n), st.label) == pairing_from(
                leaves.subrange(k + 1, n),
                s,
            ));
        }
    }
}

/// Law: over a document whose watched array holds exactly the string leaves
/// `s1 … sn`, the walk emits exactly one pair per URL-shaped leaf, pairing
/// it with the most recent non-URL leaf before it, or with the empty label
/// if none precedes it.
pub proof fn lemma_walk_pairs_of_string_leaves(evs: Seq<Event>, n: int)
    requires
        string_leaf_stream(evs, n),
    ensures
        walk_pairs(evs) == pairing_from(leaves_of(evs, n), Seq::empty()),
{
    let len = evs.len() as int;
    let st0 = init_walk();
    let st1 = walk_step(st0, evs[0]);
    let rest1 = evs.subrange(1, len);
    assert(rest1[0] == evs[1]);
    let st2 = walk_step(st1, rest1[0]);
    let rest2 = rest1.subrange(1, rest1.len() as int);
    assert(rest2[0] == evs[2]);
    let st3 = walk_step(st2, rest2[0]);
    let rest3 = rest2.subrange(1, rest2.len() as int);
    assert(st3.path =~~= array_path());
    assert(st3.pairs =~= Seq::<(Seq<char>, Seq<char>)>::empty());
    assert(rest3 =~= evs.subrange(3, len));
    assert(walk_from(st0, evs) == walk_from(st1, rest1));
    assert(walk_from(st1, rest1) == walk_from(st2, rest2));
    assert(walk_from(st2, rest2) == walk_from(st3, rest3));
    lemma_walk_leaf_blocks(evs, n, 0, st3);
    assert(leaves_of(evs, n).subrange(0, n) =~= leaves_of(evs, n));
    assert(st3.pairs + pairing_from(leaves_of(evs, n), st3.label) =~= pairing_from(
        leaves_of(evs, n),
        Seq::empty(),
    ));
}

} // verus!
