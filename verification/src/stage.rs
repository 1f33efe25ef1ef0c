//! Staging a server working directory: the `server.properties` overlay,
//! the EULA file, readiness detection on the console, and the launch
//! command.

use crate::props::overlay_all;
use crate::props::parse_props;
use crate::props::render_props;
use crate::props::parse_properties;
use crate::props::render_properties;
use crate::props::set_property;
use crate::text::dec_digits;
use crate::text::push_char;
use crate::text::push_dec_u64;
use crate::text::str_ends_with;
use vstd::prelude::*;

verus! {

/// Options for one server launch; both memory sizes are in megabytes.
#[derive(Debug, Clone, PartialEq, Eq, Structural)]
pub struct ServerRunOptions {
    pub max_memory: Option<u32>,
    pub initial_memory: Option<u32>,
}

impl Default for ServerRunOptions {
    /// No memory limits.
    fn default() -> (r: ServerRunOptions)
        ensures
            r.max_memory is None,
            r.initial_memory is None,
    {
        ServerRunOptions { max_memory: None, initial_memory: None }
    }
}

/// The decimal digits of `n`, as ASCII bytes.
pub open spec fn dec_bytes(n: int) -> Seq<u8> {
    Seq::new(dec_digits(n).len(), |i: int| dec_digits(n)[i] as u8)
}

/// Appends the decimal digits of `n` as bytes.
pub fn push_dec_bytes(v: &mut Vec<u8>, n: u64)
    ensures
        final(v)@ == old(v)@ + dec_bytes(n as int),
    decreases n,
{
    if n < 10 {
        v.push((n + 48) as u8);
        proof {
            assert(v@ =~= old(v)@ + dec_bytes(n as int)) by {
                assert(dec_digits(n as int) =~= seq![crate::text::digit_char(n as int)]);
                assert(dec_bytes(n as int) =~= seq![(n + 48) as u8]);
            }
        }
    } else {
        push_dec_bytes(v, n / 10);
        v.push((n % 10 + 48) as u8);
        proof {
            assert(v@ =~= old(v)@ + dec_bytes(n as int)) by {
                assert(dec_digits(n as int) == dec_digits(n as int / 10).push(
                    crate::text::digit_char(n as int % 10),
                ));
                assert forall|i: int| 0 <= i < dec_bytes(n as int).len() implies dec_bytes(
                    n as int,
                )[i] == (old(v)@ + dec_bytes(n as int))[old(v)@.len() + i] by {
                    if i < dec_digits(n as int / 10).len() {
                        assert(dec_digits(n as int)[i] == dec_digits(n as int / 10)[i]);
                    }
                }
                assert(dec_bytes(n as int) =~= dec_bytes(n as int / 10).push(
                    (n as int % 10 + 48) as u8,
                ));
            }
        }
    }
}

/// The six keys the orchestrator forces into `server.properties`, with
/// their values, in overlay order.
pub open spec fn staging_overlays(port: int, view_distance: int, max_players: int) -> Seq<
    (Seq<u8>, Seq<u8>),
> {
    seq![
        (seq![111u8, 110u8, 108u8, 105u8, 110u8, 101u8, 45u8, 109u8, 111u8, 100u8, 101u8], seq![102u8, 97u8, 108u8, 115u8, 101u8]),
        (seq![109u8, 97u8, 120u8, 45u8, 112u8, 108u8, 97u8, 121u8, 101u8, 114u8, 115u8], dec_bytes(max_players)),
        (seq![115u8, 101u8, 114u8, 118u8, 101u8, 114u8, 45u8, 112u8, 111u8, 114u8, 116u8], dec_bytes(port)),
        (seq![118u8, 105u8, 101u8, 119u8, 45u8, 100u8, 105u8, 115u8, 116u8, 97u8, 110u8, 99u8, 101u8], dec_bytes(view_distance)),
        (seq![103u8, 97u8, 109u8, 101u8, 109u8, 111u8, 100u8, 101u8], seq![99u8, 114u8, 101u8, 97u8, 116u8, 105u8, 118u8, 101u8]),
        (seq![97u8, 108u8, 108u8, 111u8, 119u8, 45u8, 102u8, 108u8, 105u8, 103u8, 104u8, 116u8], seq![116u8, 114u8, 117u8, 101u8]),
    ]
}

/// Overlays the orchestrator's six keys onto an existing properties
/// document and renders the result.
pub fn staged_properties(existing: &[u8], port: u16, view_distance: u32, max_players: u32) -> (
    r: Vec<u8>)
    ensures
        r@ == render_props(
            overlay_all(
                parse_props(existing@),
                staging_overlays(port as int, view_distance as int, max_players as int),
            ),
        ),
{
    let mut m = parse_properties(existing);
    let ghost m0 = m.deep_view();
    let ghost kvs = staging_overlays(port as int, view_distance as int, max_players as int);

    let mut k_online: Vec<u8> = Vec::new();
    k_online.push(111);
    k_online.push(110);
    k_online.push(108);
    k_online.push(105);
    k_online.push(110);
    k_online.push(101);
    k_online.push(45);
    k_online.push(109);
    k_online.push(111);
    k_online.push(100);
    k_online.push(101);
    let mut v_false: Vec<u8> = Vec::new();
    v_false.push(102);
    v_false.push(97);
    v_false.push(108);
    v_false.push(115);
    v_false.push(101);
    proof {
        assert(k_online@ =~= kvs[0].0);
        assert(v_false@ =~= kvs[0].1);
    }
    set_property(&mut m, k_online.as_slice(), v_false.as_slice());

    let mut k_players: Vec<u8> = Vec::new();
    k_players.push(109);
    k_players.push(97);
    k_players.push(120);
    k_players.push(45);
    k_players.push(112);
    k_players.push(108);
    k_players.push(97);
    k_players.push(121);
    k_players.push(101);
    k_players.push(114);
    k_players.push(115);
    let mut v_players: Vec<u8> = Vec::new();
    push_dec_bytes(&mut v_players, max_players as u64);
    proof {
        assert(k_players@ =~= kvs[1].0);
        assert(v_players@ =~= kvs[1].1);
    }
    set_property(&mut m, k_players.as_slice(), v_players.as_slice());

    let mut k_port: Vec<u8> = Vec::new();
    k_port.push(115);
    k_port.push(101);
    k_port.push(114);
    k_port.push(118);
    k_port.push(101);
    k_port.push(114);
    k_port.push(45);
    k_port.push(112);
    k_port.push(111);
    k_port.push(114);
    k_port.push(116);
    let mut v_port: Vec<u8> = Vec::new();
    push_dec_bytes(&mut v_port, port as u64);
    proof {
        assert(k_port@ =~= kvs[2].0);
        assert(v_port@ =~= kvs[2].1);
    }
    set_property(&mut m, k_port.as_slice(), v_port.as_slice());

    let mut k_view: Vec<u8> = Vec::new();
    k_view.push(118);
    k_view.push(105);
    k_view.push(101);
    k_view.push(119);
    k_view.push(45);
    k_view.push(100);
    k_view.push(105);
    k_view.push(115);
    k_view.push(116);
    k_view.push(97);
    k_view.push(110);
    k_view.push(99);
    k_view.push(101);
    let mut v_view: Vec<u8> = Vec::new();
    push_dec_bytes(&mut v_view, view_distance as u64);
    proof {
        assert(k_view@ =~= kvs[3].0);
        assert(v_view@ =~= kvs[3].1);
    }
    set_property(&mut m, k_view.as_slice(), v_view.as_slice());

    let mut k_mode: Vec<u8> = Vec::new();
    k_mode.push(103);
    k_mode.push(97);
    k_mode.push(109);
    k_mode.push(101);
    k_mode.push(109);
    k_mode.push(111);
    k_mode.push(100);
    k_mode.push(101);
    let mut v_creative: Vec<u8> = Vec::new();
    v_creative.push(99);
    v_creative.push(114);
    v_creative.push(101);
    v_creative.push(97);
    v_creative.push(116);
    v_creative.push(105);
    v_creative.push(118);
    v_creative.push(101);
    proof {
        assert(k_mode@ =~= kvs[4].0);
        assert(v_creative@ =~= kvs[4].1);
    }
    set_property(&mut m, k_mode.as_slice(), v_creative.as_slice());

    let mut k_flight: Vec<u8> = Vec::new();
    k_flight.push(97);
    k_flight.push(108);
    k_flight.push(108);
    k_flight.push(111);
    k_flight.push(119);
    k_flight.push(45);
    k_flight.push(102);
    k_flight.push(108);
    k_flight.push(105);
    k_flight.push(103);
    k_flight.push(104);
    k_flight.push(116);
    let mut v_true: Vec<u8> = Vec::new();
    v_true.push(116);
    v_true.push(114);
    v_true.push(117);
    v_true.push(101);
    proof {
        assert(k_flight@ =~= kvs[5].0);
        assert(v_true@ =~= kvs[5].1);
    }
    set_property(&mut m, k_flight.as_slice(), v_true.as_slice());

    proof {
        lemma_overlay_all_unfold_six(m0, kvs);
        assert(m.deep_view() == overlay_all(m0, kvs));
    }
    render_properties(&m)
}

/// Applying six overlays one at a time is `overlay_all` of the list.
proof fn lemma_overlay_all_unfold_six(m: Seq<(Seq<u8>, Seq<u8>)>, kvs: Seq<(Seq<u8>, Seq<u8>)>)
    requires
        kvs.len() == 6,
    ensures
        overlay_all(m, kvs) == crate::props::overlay_props(
            crate::props::overlay_props(
                crate::props::overlay_props(
                    crate::props::overlay_props(
                        crate::props::overlay_props(
                            crate::props::overlay_props(m, kvs[0].0, kvs[0].1),
                            kvs[1].0,
                            kvs[1].1,
                        ),
                        kvs[2].0,
                        kvs[2].1,
                    ),
                    kvs[3].0,
                    kvs[3].1,
                ),
                kvs[4].0,
                kvs[4].1,
            ),
            kvs[5].0,
            kvs[5].1,
        ),
{
    let k1 = kvs.drop_first();
    let k2 = k1.drop_first();
    let k3 = k2.drop_first();
    let k4 = k3.drop_first();
    let k5 = k4.drop_first();
    let k6 = k5.drop_first();
    assert(k6.len() == 0);
    assert(k1[0] == kvs[1] && k2[0] == kvs[2] && k3[0] == kvs[3] && k4[0] == kvs[4] && k5[0]
        == kvs[5]);
    let m1 = crate::props::overlay_props(m, kvs[0].0, kvs[0].1);
    let m2 = crate::props::overlay_props(m1, kvs[1].0, kvs[1].1);
    let m3 = crate::props::overlay_props(m2, kvs[2].0, kvs[2].1);
    let m4 = crate::props::overlay_props(m3, kvs[3].0, kvs[3].1);
    let m5 = crate::props::overlay_props(m4, kvs[4].0, kvs[4].1);
    let m6 = crate::props::overlay_props(m5, kvs[5].0, kvs[5].1);
    assert(overlay_all(m, kvs) == overlay_all(m1, k1));
    assert(overlay_all(m1, k1) == overlay_all(m2, k2));
    assert(overlay_all(m2, k2) == overlay_all(m3, k3));
    assert(overlay_all(m3, k3) == overlay_all(m4, k4));
    assert(overlay_all(m4, k4) == overlay_all(m5, k5));
    assert(overlay_all(m5, k5) == overlay_all(m6, k6));
    assert(overlay_all(m6, k6) == m6);
}

/// The contents of the staged `eula.txt`.
pub fn eula_bytes() -> (r: Vec<u8>)
    ensures
        r@ == seq![101u8, 117u8, 108u8, 97u8, 61u8, 116u8, 114u8, 117u8, 101u8],
{
    let mut v: Vec<u8> = Vec::new();
    v.push(101);
    v.push(117);
    v.push(108);
    v.push(97);
    v.push(61);
    v.push(116);
    v.push(114);
    v.push(117);
    v.push(101);
    proof {
        assert(v@ =~= seq![101u8, 117u8, 108u8, 97u8, 61u8, 116u8, 114u8, 117u8, 101u8]);
    }
    v
}

/// Whether a console line marks server readiness: it ends with
/// `For help, type "help"`.
pub fn is_ready_line(line: &str) -> (r: bool)
    ensures
        r == (line@.len() >= 21 && line@.subrange(line@.len() - 21, line@.len() as int)
            == "For help, type \"help\""@),
{
    proof {
        reveal_strlit("For help, type \"help\"");
    }
    str_ends_with(line, "For help, type \"help\"")
}

/// The argument list of a server launch: the optional memory flags, then
/// `-jar server.jar nogui`.
pub open spec fn launch_args(opts: ServerRunOptions) -> Seq<Seq<char>> {
    let mem = if opts.max_memory is Some {
        seq![seq!['-', 'X', 'm', 'x'] + dec_digits(opts.max_memory->Some_0 as int) + seq!['M']]
    } else {
        Seq::<Seq<char>>::empty()
    };
    let mem2 = if opts.initial_memory is Some {
        mem.push(
            seq!['-', 'X', 'm', 's'] + dec_digits(opts.initial_memory->Some_0 as int)
                + seq!['M'],
        )
    } else {
        mem
    };
    mem2 + seq!["-jar"@, "server.jar"@, "nogui"@]
}

/// Builds the launch arguments for the given options.
pub fn launch_command(opts: &ServerRunOptions) -> (r: Vec<String>)
    ensures
        r.deep_view() == launch_args(*opts),
{
    let mut out: Vec<String> = Vec::new();
    match opts.max_memory {
        Some(m) => {
            let mut s = String::new();
            push_char(&mut s, '-');
            push_char(&mut s, 'X');
            push_char(&mut s, 'm');
            push_char(&mut s, 'x');
            push_dec_u64(&mut s, m as u64);
            push_char(&mut s, 'M');
            out.push(s);
        },
        None => {},
    }
    match opts.initial_memory {
        Some(m) => {
            let mut s = String::new();
            push_char(&mut s, '-');
            push_char(&mut s, 'X');
            push_char(&mut s, 'm');
            push_char(&mut s, 's');
            push_dec_u64(&mut s, m as u64);
            push_char(&mut s, 'M');
            out.push(s);
        },
        None => {},
    }
    out.push(String::from_str("-jar"));
    out.push(String::from_str("server.jar"));
    out.push(String::from_str("nogui"));
    proof {
        assert(out.deep_view() =~~= launch_args(*opts));
    }
    out
}

} // verus!
