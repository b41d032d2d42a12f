//! Text renderings of the validator's sockets for its start-up report.

use vstd::prelude::*;
use crate::text::{decimal, push_decimal, push_str, to_string};

verus! {

/// An optional text, or `None` where it is absent.
pub open spec fn opt_text(opt: Option<Seq<char>>) -> Seq<char> {
    match opt {
        Some(s) => s,
        None => "None"@,
    }
}

/// Renders an optional text.
pub fn format_opt(opt: Option<&str>) -> (r: String)
    ensures
        r@ == opt_text(
            match opt {
                Some(s) => Some(s@),
                None => None::<Seq<char>>,
            },
        ),
{
    match opt {
        Some(s) => to_string(s),
        None => to_string("None"),
    }
}

/// The rendering of a list of socket addresses built so far: the text, the
/// address of the current run and the length of that run.
pub struct ListState {
    pub text: Seq<char>,
    pub last: Option<Seq<char>>,
    pub count: nat,
}

/// The text with the current run closed: ` × n` where the run repeats.
pub open spec fn close_run(st: ListState) -> Seq<char> {
    if st.count > 1 {
        st.text + " \u{d7} "@ + decimal(st.count)
    } else {
        st.text
    }
}

/// The rendering after the first `n` addresses: a repeated address
/// lengthens the run; a new one closes the run, adds a `, ` separator after
/// any text, and starts its own run.
pub open spec fn list_state(items: Seq<Seq<char>>, n: nat) -> ListState
    decreases n,
{
    if n == 0 || n > items.len() {
        ListState { text: seq![], last: None, count: 0 }
    } else {
        let st = list_state(items, (n - 1) as nat);
        let s = items[n - 1];
        if st.last == Some(s) {
            ListState { text: st.text, last: st.last, count: st.count + 1 }
        } else {
            let closed = close_run(st);
            let sep = if closed.len() > 0 {
                closed + ", "@
            } else {
                closed
            };
            ListState { text: sep + s, last: Some(s), count: 1 }
        }
    }
}

/// The rendering of a list of socket addresses: runs of equal addresses
/// shown once with their count, runs separated by `, `.
pub open spec fn socket_list_text(items: Seq<Seq<char>>) -> Seq<char> {
    close_run(list_state(items, items.len()))
}

proof fn lemma_list_count(items: Seq<Seq<char>>, n: nat)
    requires
        n <= items.len(),
    ensures
        list_state(items, n).count <= n,
        list_state(items, n).last is None <==> list_state(items, n).count == 0,
    decreases n,
{
    if n > 0 {
        lemma_list_count(items, (n - 1) as nat);
    }
}

/// Renders a list of socket addresses (each already rendered).
pub fn format_udp_socket_list(items: &Vec<String>) -> (r: String)
    ensures
        r@ == socket_list_text(items@.map_values(|s: String| s@)),
{
    let ghost views = items@.map_values(|s: String| s@);
    let mut result = String::new();
    let mut last: Option<usize> = None;
    let mut count: usize = 0;
    let mut i: usize = 0;
    while i < items.len()
        invariant
            views == items@.map_values(|s: String| s@),
            i <= items@.len(),
            count <= i,
            result@ == list_state(views, i as nat).text,
            count == list_state(views, i as nat).count,
            match last {
                Some(j) => j < i && list_state(views, i as nat).last == Some(views[j as int]),
                None => list_state(views, i as nat).last is None,
            },
        decreases items.len() - i,
    {
        proof {
            lemma_list_count(views, i as nat);
        }
        let same = match last {
            Some(j) => crate::text::str_equal(items[j].as_str(), items[i].as_str()),
            None => false,
        };
        if same {
            count = count + 1;
        } else {
            if count > 1 {
                push_str(&mut result, " \u{d7} ");
                push_decimal(&mut result, count as u64);
            }
            if result.as_str().unicode_len() > 0 {
                push_str(&mut result, ", ");
            }
            push_str(&mut result, items[i].as_str());
            count = 1;
            last = Some(i);
        }
        i += 1;
    }
    if count > 1 {
        push_str(&mut result, " \u{d7} ");
        push_decimal(&mut result, count as u64);
    }
    proof {
        assert(items@.len() == views.len());
    }
    result
}

/// The labels of the socket report, in order.
pub open spec fn socket_label(i: int) -> Seq<char> {
    if i == 0 {
        "Gossip UDP"@
    } else if i == 1 {
        "IP echo TCP"@
    } else if i == 2 {
        "TVU UDP"@
    } else if i == 3 {
        "TVU UDP QUIC"@
    } else if i == 4 {
        "TPU UDP"@
    } else if i == 5 {
        "TPU Forwards UDP"@
    } else if i == 6 {
        "TPU Vote UDP"@
    } else if i == 7 {
        "Broadcast UDP"@
    } else if i == 8 {
        "Repair UDP"@
    } else if i == 9 {
        "Repair UDP QUIC"@
    } else if i == 10 {
        "Retransmit UDP Sockets"@
    } else if i == 11 {
        "Serve Repair UDP"@
    } else if i == 12 {
        "Serve Repair UDP QUIC"@
    } else if i == 13 {
        "Ancestor Hashes Requests UDP"@
    } else if i == 14 {
        "Ancestor Hashes Requests UDP QUIC"@
    } else if i == 15 {
        "TPU UDP QUIC"@
    } else if i == 16 {
        "TPU Forwards UDP QUIC"@
    } else if i == 17 {
        "TPU Vote UDP QUIC"@
    } else if i == 18 {
        "TPU Vote Forwarding Client UDP"@
    } else if i == 19 {
        "TPU Transaction Forwarding Clients UDP"@
    } else if i == 20 {
        "Alpenglow UDP"@
    } else if i == 21 {
        "QUIC Vote Client UDP"@
    } else if i == 22 {
        "QUIC Alpenglow Client UDP"@
    } else if i == 23 {
        "RPC STS Client UDP"@
    } else {
        "Vortexor Receivers UDP"@
    }
}

fn label(i: usize) -> (r: &'static str)
    requires
        i < SOCKET_FIELDS,
    ensures
        r@ == socket_label(i as int),
{
    if i == 0 {
        "Gossip UDP"
    } else if i == 1 {
        "IP echo TCP"
    } else if i == 2 {
        "TVU UDP"
    } else if i == 3 {
        "TVU UDP QUIC"
    } else if i == 4 {
        "TPU UDP"
    } else if i == 5 {
        "TPU Forwards UDP"
    } else if i == 6 {
        "TPU Vote UDP"
    } else if i == 7 {
        "Broadcast UDP"
    } else if i == 8 {
        "Repair UDP"
    } else if i == 9 {
        "Repair UDP QUIC"
    } else if i == 10 {
        "Retransmit UDP Sockets"
    } else if i == 11 {
        "Serve Repair UDP"
    } else if i == 12 {
        "Serve Repair UDP QUIC"
    } else if i == 13 {
        "Ancestor Hashes Requests UDP"
    } else if i == 14 {
        "Ancestor Hashes Requests UDP QUIC"
    } else if i == 15 {
        "TPU UDP QUIC"
    } else if i == 16 {
        "TPU Forwards UDP QUIC"
    } else if i == 17 {
        "TPU Vote UDP QUIC"
    } else if i == 18 {
        "TPU Vote Forwarding Client UDP"
    } else if i == 19 {
        "TPU Transaction Forwarding Clients UDP"
    } else if i == 20 {
        "Alpenglow UDP"
    } else if i == 21 {
        "QUIC Vote Client UDP"
    } else if i == 22 {
        "QUIC Alpenglow Client UDP"
    } else if i == 23 {
        "RPC STS Client UDP"
    } else {
        "Vortexor Receivers UDP"
    }
}

/// The number of socket kinds in the report.
pub const SOCKET_FIELDS: usize = 25;

/// Line `i` of the socket report.
pub open spec fn report_line(fields: Seq<Seq<char>>, i: int) -> Seq<char> {
    socket_label(i) + ": ["@ + fields[i] + "]"@
}

/// The first `n` lines of the socket report, separated by line breaks.
pub open spec fn report_lines(fields: Seq<Seq<char>>, n: nat) -> Seq<char>
    decreases n,
{
    if n == 0 {
        seq![]
    } else if n == 1 {
        report_line(fields, 0)
    } else {
        report_lines(fields, (n - 1) as nat) + "\n"@ + report_line(fields, n - 1)
    }
}

/// The socket report: one line per socket kind, in the order of the labels,
/// each naming the kind and, in brackets, the rendered sockets.
pub fn format_sockets(fields: &Vec<String>) -> (r: String)
    requires
        fields.len() == SOCKET_FIELDS,
    ensures
        r@ == report_lines(fields@.map_values(|s: String| s@), SOCKET_FIELDS as nat),
{
    let ghost views = fields@.map_values(|s: String| s@);
    let mut r = String::new();
    let mut i: usize = 0;
    while i < SOCKET_FIELDS
        invariant
            fields.len() == SOCKET_FIELDS,
            views == fields@.map_values(|s: String| s@),
            i <= SOCKET_FIELDS,
            r@ == report_lines(views, i as nat),
        decreases SOCKET_FIELDS - i,
    {
        let ghost before = r@;
        if i > 0 {
            push_str(&mut r, "\n");
        }
        push_str(&mut r, label(i));
        push_str(&mut r, ": [");
        push_str(&mut r, fields[i].as_str());
        push_str(&mut r, "]");
        proof {
            if i == 0 {
                assert(r@ =~= report_lines(views, 1));
            } else {
                assert(r@ =~= report_lines(views, (i + 1) as nat));
            }
        }
        i += 1;
    }
    r
}

} // verus!
