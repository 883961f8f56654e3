//! The wire format of change events.
//!
//! A [`ChangeEvent`] is serialized to a JSON object over UTF-8 bytes:
//! `{"instance":"…","changes":[…]}`, with a `"full_state"` member between
//! the two when the event carries the whole snapshot. Each change is an
//! externally tagged variant: `{"Added":["key","value"]}`,
//! `{"Removed":"key"}` or `{"Modified":["key","value"]}`. Key and value
//! text is escaped byte-wise: quote and backslash get a backslash, control
//! bytes become `\u00XX`; all other bytes, multi-byte UTF-8 sequences
//! included, pass through unchanged. The whole payload is pinned down by
//! [`json_event`].

use vstd::prelude::*;
use vstd::string::StrSliceExecFns;
use vstd::utf8::encode_utf8;

use crate::detector::ChangeEvent;
use crate::diff::changes_view;
use crate::diff::Change;
use crate::diff::ChangeV;
use crate::state::Pair;
use crate::state::State;

verus! {

/// The byte that stands for a hexadecimal digit, lower case.
pub open spec fn hex_digit(n: u8) -> u8 {
    if n < 10 {
        (48 + n) as u8
    } else {
        (87 + n) as u8
    }
}

/// How one byte of key or value text appears inside a JSON string.
pub open spec fn escape_byte(b: u8) -> Seq<u8> {
    if b == 34 {
        seq![92u8, 34u8]
    } else if b == 92 {
        seq![92u8, 92u8]
    } else if b < 32 {
        seq![92u8, 117u8, 48u8, 48u8, hex_digit(b / 16), hex_digit(b % 16)]
    } else {
        seq![b]
    }
}

/// A byte sequence escaped for a JSON string, byte for byte.
pub open spec fn escape_bytes(s: Seq<u8>) -> Seq<u8>
    decreases s.len(),
{
    if s.len() == 0 {
        Seq::empty()
    } else {
        escape_bytes(s.drop_last()) + escape_byte(s.last())
    }
}

/// A quoted JSON string holding the given text.
pub open spec fn json_string(s: Seq<char>) -> Seq<u8> {
    seq![34u8] + escape_bytes(encode_utf8(s)) + seq![34u8]
}

/// One change as a JSON value: the variant name tags the payload.
pub open spec fn json_change(c: ChangeV) -> Seq<u8> {
    match c {
        ChangeV::Added(k, v) => encode_utf8("{\"Added\":["@) + json_string(k) + encode_utf8(","@)
            + json_string(v) + encode_utf8("]}"@),
        ChangeV::Removed(k) => encode_utf8("{\"Removed\":"@) + json_string(k) + encode_utf8("}"@),
        ChangeV::Modified(k, v) => encode_utf8("{\"Modified\":["@) + json_string(k) + encode_utf8(
            ","@,
        ) + json_string(v) + encode_utf8("]}"@),
    }
}

/// The members of the changes array, comma separated, in list order.
pub open spec fn json_changes(cs: Seq<ChangeV>) -> Seq<u8>
    decreases cs.len(),
{
    if cs.len() == 0 {
        Seq::empty()
    } else if cs.len() == 1 {
        json_change(cs[0])
    } else {
        json_changes(cs.drop_last()) + encode_utf8(","@) + json_change(cs.last())
    }
}

/// One snapshot entry as a JSON object member.
pub open spec fn json_pair(p: Pair) -> Seq<u8> {
    json_string(p.0) + encode_utf8(":"@) + json_string(p.1)
}

/// The members of the full-state object, comma separated, in key order.
pub open spec fn json_pairs(s: Seq<Pair>) -> Seq<u8>
    decreases s.len(),
{
    if s.len() == 0 {
        Seq::empty()
    } else if s.len() == 1 {
        json_pair(s[0])
    } else {
        json_pairs(s.drop_last()) + encode_utf8(","@) + json_pair(s.last())
    }
}

/// A snapshot as a JSON object.
pub open spec fn json_state(s: Seq<Pair>) -> Seq<u8> {
    encode_utf8("{"@) + json_pairs(s) + encode_utf8("}"@)
}

/// The whole payload of one change event.
pub open spec fn json_event(instance: Seq<char>, cs: Seq<ChangeV>, fs: Option<Seq<Pair>>) -> Seq<
    u8,
> {
    encode_utf8("{\"instance\":"@) + json_string(instance) + (match fs {
        Some(st) => encode_utf8(",\"full_state\":"@) + json_state(st),
        None => Seq::empty(),
    }) + encode_utf8(",\"changes\":["@) + json_changes(cs) + encode_utf8("]}"@)
}

/// The model of an optional full snapshot.
pub open spec fn full_state_view(fs: Option<State>) -> Option<Seq<Pair>> {
    match fs {
        Some(st) => Some(st@),
        None => None,
    }
}

/// Appends the UTF-8 bytes of a text as they are.
fn push_str_bytes(out: &mut Vec<u8>, s: &str)
    ensures
        final(out)@ == old(out)@ + encode_utf8(s@),
{
    let mut b = s.as_bytes_vec();
    out.append(&mut b);
}

/// Appends a text escaped for the inside of a JSON string.
#[verifier::loop_isolation(false)]
fn push_escaped(out: &mut Vec<u8>, s: &str)
    ensures
        final(out)@ == old(out)@ + escape_bytes(encode_utf8(s@)),
{
    let bs = s.as_bytes_vec();
    let n = bs.len();
    let mut i: usize = 0;
    proof {
        assert(bs@.take(0) =~= Seq::<u8>::empty());
        assert(out@ =~= old(out)@ + escape_bytes(bs@.take(0)));
    }
    while i < n
        invariant
            i <= n,
            n == bs@.len(),
            out@ == old(out)@ + escape_bytes(bs@.take(i as int)),
        decreases n - i,
    {
        proof {
            let t = bs@.take(i + 1);
            assert(t.drop_last() =~= bs@.take(i as int));
            assert(t.last() == bs@[i as int]);
        }
        let b = bs[i];
        if b == 34 {
            out.push(92);
            out.push(34);
        } else if b == 92 {
            out.push(92);
            out.push(92);
        } else if b < 32 {
            out.push(92);
            out.push(117);
            out.push(48);
            out.push(48);
            let hi: u8 = b / 16;
            let lo: u8 = b % 16;
            out.push(if hi < 10 {
                48 + hi
            } else {
                87 + hi
            });
            out.push(if lo < 10 {
                48 + lo
            } else {
                87 + lo
            });
        } else {
            out.push(b);
        }
        proof {
            assert(out@ =~= old(out)@ + escape_bytes(bs@.take(i + 1)));
        }
        i = i + 1;
    }
    proof {
        assert(bs@.take(n as int) =~= bs@);
    }
}

/// Appends a quoted JSON string holding the text.
fn push_json_string(out: &mut Vec<u8>, s: &str)
    ensures
        final(out)@ == old(out)@ + json_string(s@),
{
    out.push(34);
    push_escaped(out, s);
    out.push(34);
    proof {
        assert(out@ =~= old(out)@ + json_string(s@));
    }
}

/// Appends one change as a JSON value.
fn push_change(out: &mut Vec<u8>, c: &Change)
    ensures
        final(out)@ == old(out)@ + json_change(c@),
{
    match c {
        Change::Added(k, v) => {
            push_str_bytes(out, "{\"Added\":[");
            push_json_string(out, k.as_str());
            push_str_bytes(out, ",");
            push_json_string(out, v.as_str());
            push_str_bytes(out, "]}");
        },
        Change::Removed(k) => {
            push_str_bytes(out, "{\"Removed\":");
            push_json_string(out, k.as_str());
            push_str_bytes(out, "}");
        },
        Change::Modified(k, v) => {
            push_str_bytes(out, "{\"Modified\":[");
            push_json_string(out, k.as_str());
            push_str_bytes(out, ",");
            push_json_string(out, v.as_str());
            push_str_bytes(out, "]}");
        },
    }
    proof {
        assert(out@ =~= old(out)@ + json_change(c@));
    }
}

/// Appends the comma-separated members of the changes array.
#[verifier::loop_isolation(false)]
fn push_changes(out: &mut Vec<u8>, cs: &Vec<Change>)
    ensures
        final(out)@ == old(out)@ + json_changes(changes_view(cs@)),
{
    let n = cs.len();
    let mut i: usize = 0;
    proof {
        assert(changes_view(cs@).take(0) =~= Seq::<ChangeV>::empty());
        assert(out@ =~= old(out)@ + json_changes(changes_view(cs@).take(0)));
    }
    while i < n
        invariant
            i <= n,
            out@ == old(out)@ + json_changes(changes_view(cs@).take(i as int)),
        decreases n - i,
    {
        if i > 0 {
            push_str_bytes(out, ",");
        }
        push_change(out, &cs[i]);
        proof {
            let t = changes_view(cs@).take(i + 1);
            assert(t.drop_last() =~= changes_view(cs@).take(i as int));
            assert(t.last() == cs@[i as int]@);
            if i == 0 {
                assert(t.len() == 1);
                assert(t[0] == cs@[0]@);
                assert(out@ =~= old(out)@ + json_changes(t));
            } else {
                assert(t.len() >= 2);
                assert(out@ =~= old(out)@ + json_changes(t));
            }
        }
        i = i + 1;
    }
    proof {
        assert(changes_view(cs@).take(n as int) =~= changes_view(cs@));
    }
}

/// Appends a snapshot as a JSON object, entries in key order.
#[verifier::loop_isolation(false)]
fn push_state(out: &mut Vec<u8>, st: &State)
    ensures
        final(out)@ == old(out)@ + json_state(st@),
{
    push_str_bytes(out, "{");
    let ghost mid = out@;
    let n = st.len();
    let mut i: usize = 0;
    proof {
        assert(st@.take(0) =~= Seq::<Pair>::empty());
        assert(out@ =~= mid + json_pairs(st@.take(0)));
    }
    while i < n
        invariant
            i <= n,
            n == st@.len(),
            out@ == mid + json_pairs(st@.take(i as int)),
        decreases n - i,
    {
        if i > 0 {
            push_str_bytes(out, ",");
        }
        let e = st.entry_at(i);
        push_json_string(out, e.key.as_str());
        push_str_bytes(out, ":");
        push_json_string(out, e.value.as_str());
        proof {
            let t = st@.take(i + 1);
            assert(t.drop_last() =~= st@.take(i as int));
            assert(t.last() == st@[i as int]);
            if i == 0 {
                assert(t.len() == 1);
                assert(t[0] == st@[0]);
                assert(out@ =~= mid + json_pairs(t));
            } else {
                assert(t.len() >= 2);
                assert(out@ =~= mid + json_pairs(t));
            }
        }
        i = i + 1;
    }
    proof {
        assert(st@.take(n as int) =~= st@);
    }
    push_str_bytes(out, "}");
    proof {
        assert(out@ =~= old(out)@ + json_state(st@));
    }
}

/// Serializes one change event to its wire payload.
pub fn encode_event(e: &ChangeEvent) -> (r: Vec<u8>)
    ensures
        r@ == json_event(e.instance@, changes_view(e.changes@), full_state_view(e.full_state)),
{
    let mut out: Vec<u8> = Vec::new();
    push_str_bytes(&mut out, "{\"instance\":");
    push_json_string(&mut out, e.instance.as_str());
    match &e.full_state {
        Some(st) => {
            push_str_bytes(&mut out, ",\"full_state\":");
            push_state(&mut out, st);
        },
        None => {},
    }
    push_str_bytes(&mut out, ",\"changes\":[");
    push_changes(&mut out, &e.changes);
    push_str_bytes(&mut out, "]}");
    proof {
        assert(out@ =~= json_event(
            e.instance@,
            changes_view(e.changes@),
            full_state_view(e.full_state),
        ));
    }
    out
}

} // verus!
