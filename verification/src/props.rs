//! The `server.properties` format: `key=value` lines, `#` and `!` comment
//! lines, split at the first `'='`.
//!
//! Parsing, rendering, and overlaying a key are all verified against one
//! spec-level model, and re-rendering after a second identical overlay is
//! proved stable.

use vstd::prelude::*;

verus! {

/// Splitting a byte sequence on a separator, keeping empty parts.
pub open spec fn split_bytes(s: Seq<u8>, sep: u8) -> Seq<Seq<u8>>
    decreases s.len(),
{
    if s.len() == 0 {
        seq![Seq::<u8>::empty()]
    } else {
        let rest = split_bytes(s.subrange(1, s.len() as int), sep);
        if s[0] == sep {
            seq![Seq::<u8>::empty()].add(rest)
        } else {
            seq![seq![s[0]].add(rest[0])].add(rest.subrange(1, rest.len() as int))
        }
    }
}

proof fn lemma_split_bytes_concat(p: Seq<u8>, t: Seq<u8>, sep: u8)
    requires
        forall|i: int| 0 <= i < p.len() ==> #[trigger] p[i] != sep,
    ensures
        split_bytes(p + seq![sep] + t, sep) == seq![p].add(split_bytes(t, sep)),
    decreases p.len(),
{
    let s = p + seq![sep] + t;
    if p.len() == 0 {
        assert(s =~= seq![sep].add(t));
        assert(s[0] == sep);
        let sub = s.subrange(1, s.len() as int);
        assert(sub =~= t);
        assert(split_bytes(s, sep) == seq![Seq::<u8>::empty()].add(split_bytes(sub, sep)));
        assert(seq![p].add(split_bytes(t, sep)) =~~= seq![Seq::<u8>::empty()].add(
            split_bytes(t, sep),
        ));
    } else {
        let p1 = p.subrange(1, p.len() as int);
        lemma_split_bytes_concat(p1, t, sep);
        assert(s[0] == p[0]);
        assert(s[0] != sep);
        let sub = s.subrange(1, s.len() as int);
        assert(sub =~= p1 + seq![sep] + t);
        let rest = split_bytes(p1 + seq![sep] + t, sep);
        assert(rest == seq![p1].add(split_bytes(t, sep)));
        assert(rest[0] == p1);
        assert(seq![s[0]].add(rest[0]) =~= p);
        assert(rest.subrange(1, rest.len() as int) =~= split_bytes(t, sep));
        assert(split_bytes(s, sep) =~~= seq![p].add(split_bytes(t, sep)));
    }
}

/// The index of the first occurrence of `b` in `s`, or `-1`.
pub open spec fn find_byte(s: Seq<u8>, b: u8) -> int
    decreases s.len(),
{
    if s.len() == 0 {
        -1
    } else if s[0] == b {
        0
    } else {
        let r = find_byte(s.subrange(1, s.len() as int), b);
        if r < 0 {
            -1
        } else {
            r + 1
        }
    }
}

proof fn lemma_find_byte_concat(a: Seq<u8>, c: Seq<u8>, b: u8)
    requires
        forall|i: int| 0 <= i < a.len() ==> #[trigger] a[i] != b,
    ensures
        find_byte(a + seq![b] + c, b) == a.len(),
    decreases a.len(),
{
    let s = a + seq![b] + c;
    if a.len() == 0 {
        assert(s[0] == b);
    } else {
        assert(s[0] == a[0]);
        assert(s[0] != b);
        let a1 = a.subrange(1, a.len() as int);
        lemma_find_byte_concat(a1, c, b);
        assert(s.subrange(1, s.len() as int) =~= a1 + seq![b] + c);
    }
}

/// Whether a line carries no pair: empty, or a `#` or `!` comment.
pub open spec fn skip_line(line: Seq<u8>) -> bool {
    line.len() == 0 || line[0] == 35 || line[0] == 33
}

/// A line as a pair: the part before the first `'='` and the part after
/// it; a line without `'='` is a key with an empty value.
pub open spec fn parse_line(line: Seq<u8>) -> (Seq<u8>, Seq<u8>) {
    let i = find_byte(line, 61);
    if i < 0 {
        (line, Seq::<u8>::empty())
    } else {
        (line.take(i), line.skip(i + 1))
    }
}

pub open spec fn parse_parts(parts: Seq<Seq<u8>>) -> Seq<(Seq<u8>, Seq<u8>)>
    decreases parts.len(),
{
    if parts.len() == 0 {
        Seq::<(Seq<u8>, Seq<u8>)>::empty()
    } else if skip_line(parts[0]) {
        parse_parts(parts.drop_first())
    } else {
        seq![parse_line(parts[0])].add(parse_parts(parts.drop_first()))
    }
}

/// The key-value pairs of a properties document, in order of appearance.
pub open spec fn parse_props(s: Seq<u8>) -> Seq<(Seq<u8>, Seq<u8>)> {
    parse_parts(split_bytes(s, 10))
}

/// One rendered line: `key=value` and a newline.
pub open spec fn render_line(kv: (Seq<u8>, Seq<u8>)) -> Seq<u8> {
    kv.0 + seq![61u8] + kv.1 + seq![10u8]
}

/// A rendered properties document: one line per pair, in order.
pub open spec fn render_props(m: Seq<(Seq<u8>, Seq<u8>)>) -> Seq<u8>
    decreases m.len(),
{
    if m.len() == 0 {
        Seq::<u8>::empty()
    } else {
        render_line(m[0]) + render_props(m.drop_first())
    }
}

/// The shape parsing guarantees and rendering relies on: keys free of
/// `'='` and newlines and not starting a comment, values free of newlines.
pub open spec fn props_wf(m: Seq<(Seq<u8>, Seq<u8>)>) -> bool {
    forall|i: int|
        0 <= i < m.len() ==> {
            &&& (forall|j: int|
                0 <= j < (#[trigger] m[i]).0.len() ==> (#[trigger] m[i].0[j]) != 61 && m[i].0[j]
                    != 10)
            &&& (forall|j: int| 0 <= j < m[i].1.len() ==> (#[trigger] m[i].1[j]) != 10)
            &&& (m[i].0.len() > 0 ==> m[i].0[0] != 35 && m[i].0[0] != 33)
        }
}

/// Every parsed pair satisfies `props_wf`.
pub proof fn lemma_parse_props_wf(s: Seq<u8>)
    ensures
        props_wf(parse_props(s)),
{
    lemma_split_bytes_no_sep(s, 10);
    lemma_parse_parts_wf(split_bytes(s, 10));
}

proof fn lemma_split_bytes_no_sep(s: Seq<u8>, sep: u8)
    ensures
        forall|i: int, j: int|
            0 <= i < split_bytes(s, sep).len() && 0 <= j < split_bytes(s, sep)[i].len()
                ==> #[trigger] split_bytes(s, sep)[i][j] != sep,
    decreases s.len(),
{
    if s.len() > 0 {
        let rest = split_bytes(s.subrange(1, s.len() as int), sep);
        lemma_split_bytes_no_sep(s.subrange(1, s.len() as int), sep);
        let full = split_bytes(s, sep);
        assert forall|i: int, j: int|
            0 <= i < full.len() && 0 <= j < full[i].len() implies #[trigger] full[i][j]
            != sep by {
            if s[0] == sep {
                assert(full[i] == if i == 0 {
                    Seq::<u8>::empty()
                } else {
                    rest[i - 1]
                });
            } else {
                if i == 0 {
                    assert(full[0] == seq![s[0]].add(rest[0]));
                    if j > 0 {
                        assert(full[0][j] == rest[0][j - 1]);
                    }
                } else {
                    assert(full[i] == rest[i]);
                }
            }
        }
    }
}

proof fn lemma_parse_parts_wf(parts: Seq<Seq<u8>>)
    requires
        forall|i: int, j: int|
            0 <= i < parts.len() && 0 <= j < parts[i].len() ==> #[trigger] parts[i][j] != 10,
    ensures
        props_wf(parse_parts(parts)),
    decreases parts.len(),
{
    if parts.len() > 0 {
        assert(forall|i: int, j: int|
            0 <= i < parts.drop_first().len() && 0 <= j < parts.drop_first()[i].len()
                ==> #[trigger] parts.drop_first()[i][j] != 10) by {
            assert(forall|i: int|
                0 <= i < parts.drop_first().len() ==> #[trigger] parts.drop_first()[i] == parts[i
                    + 1]);
        }
        lemma_parse_parts_wf(parts.drop_first());
        if !skip_line(parts[0]) {
            let line = parts[0];
            let kv = parse_line(line);
            let m = parse_parts(parts);
            assert(m == seq![kv].add(parse_parts(parts.drop_first())));
            lemma_parse_line_wf(line);
            assert forall|i: int| 0 <= i < m.len() implies wf_pair(#[trigger] m[i]) by {
                if i > 0 {
                    assert(m[i] == parse_parts(parts.drop_first())[i - 1]);
                }
            }
            assert(props_wf(m)) by {
                assert(forall|i: int| 0 <= i < m.len() ==> wf_pair(#[trigger] m[i]));
            }
        }
    }
}

/// Well-formedness of a single pair.
pub open spec fn wf_pair(kv: (Seq<u8>, Seq<u8>)) -> bool {
    &&& (forall|j: int| 0 <= j < kv.0.len() ==> (#[trigger] kv.0[j]) != 61 && kv.0[j] != 10)
    &&& (forall|j: int| 0 <= j < kv.1.len() ==> (#[trigger] kv.1[j]) != 10)
    &&& (kv.0.len() > 0 ==> kv.0[0] != 35 && kv.0[0] != 33)
}

proof fn lemma_parse_line_wf(line: Seq<u8>)
    requires
        forall|j: int| 0 <= j < line.len() ==> (#[trigger] line[j]) != 10,
        !skip_line(line),
    ensures
        wf_pair(parse_line(line)),
{
    let i = find_byte(line, 61);
    lemma_find_byte_semantics(line, 61);
    if i < 0 {
    } else {
        assert(forall|j: int| 0 <= j < i ==> #[trigger] line.take(i)[j] == line[j]);
        assert(forall|j: int|
            0 <= j < line.len() - i - 1 ==> #[trigger] line.skip(i + 1)[j] == line[j + i + 1]);
    }
}

/// What `find_byte` finds: a hit is at the returned index and nothing
/// earlier matches; a miss means nothing matches.
pub proof fn lemma_find_byte_semantics(s: Seq<u8>, b: u8)
    ensures
        find_byte(s, b) >= 0 ==> find_byte(s, b) < s.len() && s[find_byte(s, b)] == b && (forall|
            j: int,
        |
            0 <= j < find_byte(s, b) ==> #[trigger] s[j] != b),
        find_byte(s, b) < 0 ==> (forall|j: int| 0 <= j < s.len() ==> #[trigger] s[j] != b),
    decreases s.len(),
{
    if s.len() > 0 && s[0] != b {
        let s1 = s.subrange(1, s.len() as int);
        lemma_find_byte_semantics(s1, b);
        assert(forall|j: int| 0 <= j < s1.len() ==> #[trigger] s1[j] == s[j + 1]);
        let r1 = find_byte(s1, b);
        if r1 >= 0 {
            assert(find_byte(s, b) == r1 + 1);
            assert(s[r1 + 1] == s1[r1]);
            assert forall|j: int| 0 <= j < r1 + 1 implies #[trigger] s[j] != b by {
                if j > 0 {
                    assert(s[j] == s1[j - 1]);
                }
            }
        } else {
            assert forall|j: int| 0 <= j < s.len() implies #[trigger] s[j] != b by {
                if j > 0 {
                    assert(s[j] == s1[j - 1]);
                }
            }
        }
    }
}

/// Rendering then parsing recovers the pairs exactly.
pub proof fn lemma_props_roundtrip(m: Seq<(Seq<u8>, Seq<u8>)>)
    requires
        props_wf(m),
    ensures
        parse_props(render_props(m)) == m,
    decreases m.len(),
{
    if m.len() == 0 {
        assert(render_props(m) =~= Seq::<u8>::empty());
        assert(split_bytes(Seq::<u8>::empty(), 10) =~~= seq![Seq::<u8>::empty()]);
        assert(seq![Seq::<u8>::empty()].drop_first() =~= Seq::<Seq<u8>>::empty());
        assert(parse_parts(Seq::<Seq<u8>>::empty()) =~= Seq::<(Seq<u8>, Seq<u8>)>::empty());
        assert(parse_parts(seq![Seq::<u8>::empty()]) =~= Seq::<(Seq<u8>, Seq<u8>)>::empty());
    } else {
        let kv = m[0];
        let line = kv.0 + seq![61u8] + kv.1;
        let rest = render_props(m.drop_first());
        assert(render_props(m) =~= line + seq![10u8] + rest);
        assert(forall|i: int| 0 <= i < line.len() ==> #[trigger] line[i] != 10) by {
            assert forall|i: int| 0 <= i < line.len() implies #[trigger] line[i] != 10 by {
                if i < kv.0.len() {
                    assert(line[i] == kv.0[i]);
                } else if i == kv.0.len() {
                } else {
                    assert(line[i] == kv.1[i - kv.0.len() - 1]);
                }
            }
        }
        lemma_split_bytes_concat(line, rest, 10);
        assert(split_bytes(render_props(m), 10) == seq![line].add(split_bytes(rest, 10)));
        assert(!skip_line(line)) by {
            if kv.0.len() > 0 {
                assert(line[0] == kv.0[0]);
            } else {
                assert(line[0] == 61);
            }
        }
        assert(parse_line(line) == kv) by {
            lemma_find_byte_concat(kv.0, kv.1, 61);
            assert(find_byte(line, 61) == kv.0.len());
            assert(line.take(kv.0.len() as int) =~= kv.0);
            assert(line.skip(kv.0.len() as int + 1) =~= kv.1);
        }
        assert(props_wf(m.drop_first())) by {
            assert(forall|i: int|
                0 <= i < m.drop_first().len() ==> #[trigger] m.drop_first()[i] == m[i + 1]);
            assert forall|i: int|
                0 <= i < m.drop_first().len() implies wf_pair(#[trigger] m.drop_first()[i]) by {
                assert(m.drop_first()[i] == m[i + 1]);
                assert(wf_pair(m[i + 1]));
            }
        }
        lemma_props_roundtrip(m.drop_first());
        let parts = seq![line].add(split_bytes(rest, 10));
        assert(parts.drop_first() =~= split_bytes(rest, 10));
        assert(parse_parts(parts) == seq![kv].add(m.drop_first()));
        assert(seq![kv].add(m.drop_first()) =~= m);
    }
}

/// `props_wf` unfolds to `wf_pair` of every entry.
pub proof fn lemma_props_wf_pairs(m: Seq<(Seq<u8>, Seq<u8>)>)
    ensures
        props_wf(m) <==> (forall|i: int| 0 <= i < m.len() ==> wf_pair(#[trigger] m[i])),
{
}

/// Overlaying `key -> val`: every pair carrying `key` is updated in
/// place; a missing key is appended at the end.
pub open spec fn overlay_props(
    m: Seq<(Seq<u8>, Seq<u8>)>,
    key: Seq<u8>,
    val: Seq<u8>,
) -> Seq<(Seq<u8>, Seq<u8>)> {
    if exists|i: int| 0 <= i < m.len() && (#[trigger] m[i]).0 == key {
        Seq::new(
            m.len(),
            |i: int|
                if m[i].0 == key {
                    (key, val)
                } else {
                    m[i]
                },
        )
    } else {
        m.push((key, val))
    }
}

/// Every pair with the overlaid key carries the overlaid value, and the
/// key is present.
pub open spec fn saturated(m: Seq<(Seq<u8>, Seq<u8>)>, key: Seq<u8>, val: Seq<u8>) -> bool {
    &&& (exists|i: int| 0 <= i < m.len() && (#[trigger] m[i]).0 == key)
    &&& (forall|i: int| 0 <= i < m.len() && (#[trigger] m[i]).0 == key ==> m[i].1 == val)
}

/// An overlay saturates its own key and value.
pub proof fn lemma_overlay_saturates(m: Seq<(Seq<u8>, Seq<u8>)>, key: Seq<u8>, val: Seq<u8>)
    ensures
        saturated(overlay_props(m, key, val), key, val),
{
    let r = overlay_props(m, key, val);
    if exists|i: int| 0 <= i < m.len() && (#[trigger] m[i]).0 == key {
        let i = choose|i: int| 0 <= i < m.len() && (#[trigger] m[i]).0 == key;
        assert(r[i] == (key, val));
    } else {
        assert(r[m.len() as int] == (key, val));
    }
}

/// Overlaying a key that is already saturated changes nothing.
pub proof fn lemma_overlay_noop(m: Seq<(Seq<u8>, Seq<u8>)>, key: Seq<u8>, val: Seq<u8>)
    requires
        saturated(m, key, val),
    ensures
        overlay_props(m, key, val) == m,
{
    let r = overlay_props(m, key, val);
    assert(r =~= m) by {
        assert forall|i: int| 0 <= i < m.len() implies r[i] == m[i] by {
            if m[i].0 == key {
                assert(m[i].1 == val);
                assert(m[i] == (key, val));
            }
        }
    }
}

/// Overlaying a different key keeps an existing saturation.
pub proof fn lemma_overlay_keeps_saturation(
    m: Seq<(Seq<u8>, Seq<u8>)>,
    key: Seq<u8>,
    val: Seq<u8>,
    k2: Seq<u8>,
    v2: Seq<u8>,
)
    requires
        saturated(m, key, val),
        k2 != key,
    ensures
        saturated(overlay_props(m, k2, v2), key, val),
{
    let r = overlay_props(m, k2, v2);
    let i = choose|i: int| 0 <= i < m.len() && (#[trigger] m[i]).0 == key;
    if exists|a: int| 0 <= a < m.len() && (#[trigger] m[a]).0 == k2 {
        assert(r[i] == m[i]);
        assert forall|a: int| 0 <= a < r.len() && (#[trigger] r[a]).0 == key implies r[a].1
            == val by {
            assert(r[a] == if m[a].0 == k2 {
                (k2, v2)
            } else {
                m[a]
            });
        }
    } else {
        assert(r[i] == m[i]);
        assert forall|a: int| 0 <= a < r.len() && (#[trigger] r[a]).0 == key implies r[a].1
            == val by {
            if a < m.len() {
            } else {
                assert(r[a] == (k2, v2));
            }
        }
    }
}

/// Overlaying all pairs of `kvs` in order.
pub open spec fn overlay_all(
    m: Seq<(Seq<u8>, Seq<u8>)>,
    kvs: Seq<(Seq<u8>, Seq<u8>)>,
) -> Seq<(Seq<u8>, Seq<u8>)>
    decreases kvs.len(),
{
    if kvs.len() == 0 {
        m
    } else {
        overlay_all(overlay_props(m, kvs[0].0, kvs[0].1), kvs.drop_first())
    }
}

proof fn lemma_overlay_all_keeps_saturation(
    m: Seq<(Seq<u8>, Seq<u8>)>,
    kvs: Seq<(Seq<u8>, Seq<u8>)>,
    key: Seq<u8>,
    val: Seq<u8>,
)
    requires
        saturated(m, key, val),
        forall|i: int| 0 <= i < kvs.len() ==> (#[trigger] kvs[i]).0 != key,
    ensures
        saturated(overlay_all(m, kvs), key, val),
    decreases kvs.len(),
{
    if kvs.len() > 0 {
        lemma_overlay_keeps_saturation(m, key, val, kvs[0].0, kvs[0].1);
        assert(forall|i: int|
            0 <= i < kvs.drop_first().len() ==> #[trigger] kvs.drop_first()[i] == kvs[i + 1]);
        lemma_overlay_all_keeps_saturation(
            overlay_props(m, kvs[0].0, kvs[0].1),
            kvs.drop_first(),
            key,
            val,
        );
    }
}

/// After one pass of overlays with distinct keys, every overlaid pair is
/// saturated; a second identical pass changes nothing.
pub proof fn lemma_overlay_all_idempotent(
    m: Seq<(Seq<u8>, Seq<u8>)>,
    kvs: Seq<(Seq<u8>, Seq<u8>)>,
)
    requires
        forall|a: int, b: int| 0 <= a < b < kvs.len() ==> (#[trigger] kvs[a]).0 != (#[trigger] kvs[b]).0,
    ensures
        overlay_all(overlay_all(m, kvs), kvs) == overlay_all(m, kvs),
    decreases kvs.len(),
{
    if kvs.len() > 0 {
        let m1 = overlay_all(m, kvs);
        lemma_overlay_all_saturates(m, kvs);
        lemma_overlay_all_noop(m1, kvs);
    }
}

proof fn lemma_overlay_all_saturates(m: Seq<(Seq<u8>, Seq<u8>)>, kvs: Seq<(Seq<u8>, Seq<u8>)>)
    requires
        forall|a: int, b: int| 0 <= a < b < kvs.len() ==> (#[trigger] kvs[a]).0 != (#[trigger] kvs[b]).0,
    ensures
        forall|i: int|
            0 <= i < kvs.len() ==> saturated(
                overlay_all(m, kvs),
                (#[trigger] kvs[i]).0,
                kvs[i].1,
            ),
    decreases kvs.len(),
{
    if kvs.len() > 0 {
        let m0 = overlay_props(m, kvs[0].0, kvs[0].1);
        assert(forall|i: int|
            0 <= i < kvs.drop_first().len() ==> #[trigger] kvs.drop_first()[i] == kvs[i + 1]);
        lemma_overlay_all_saturates(m0, kvs.drop_first());
        assert forall|i: int|
            0 <= i < kvs.len() implies saturated(
            overlay_all(m, kvs),
            (#[trigger] kvs[i]).0,
            kvs[i].1,
        ) by {
            if i == 0 {
                lemma_overlay_saturates(m, kvs[0].0, kvs[0].1);
                assert(forall|j: int|
                    0 <= j < kvs.drop_first().len() ==> (#[trigger] kvs.drop_first()[j]).0
                        != kvs[0].0);
                lemma_overlay_all_keeps_saturation(m0, kvs.drop_first(), kvs[0].0, kvs[0].1);
            } else {
                assert(saturated(
                    overlay_all(m0, kvs.drop_first()),
                    kvs.drop_first()[i - 1].0,
                    kvs.drop_first()[i - 1].1,
                ));
            }
        }
    }
}

proof fn lemma_overlay_all_noop(m: Seq<(Seq<u8>, Seq<u8>)>, kvs: Seq<(Seq<u8>, Seq<u8>)>)
    requires
        forall|i: int| 0 <= i < kvs.len() ==> saturated(m, (#[trigger] kvs[i]).0, kvs[i].1),
    ensures
        overlay_all(m, kvs) == m,
    decreases kvs.len(),
{
    if kvs.len() > 0 {
        lemma_overlay_noop(m, kvs[0].0, kvs[0].1);
        assert(forall|i: int|
            0 <= i < kvs.drop_first().len() ==> #[trigger] kvs.drop_first()[i] == kvs[i + 1]);
        lemma_overlay_all_noop(m, kvs.drop_first());
    }
}

/// Overlays keep the shape of the document.
pub proof fn lemma_overlay_wf(m: Seq<(Seq<u8>, Seq<u8>)>, key: Seq<u8>, val: Seq<u8>)
    requires
        props_wf(m),
        wf_pair((key, val)),
    ensures
        props_wf(overlay_props(m, key, val)),
{
    let r = overlay_props(m, key, val);
    lemma_props_wf_pairs(m);
    assert forall|i: int| 0 <= i < r.len() implies wf_pair(#[trigger] r[i]) by {
        if exists|a: int| 0 <= a < m.len() && (#[trigger] m[a]).0 == key {
            assert(r[i] == if m[i].0 == key {
                (key, val)
            } else {
                m[i]
            });
        } else {
            if i < m.len() {
                assert(r[i] == m[i]);
            } else {
                assert(r[i] == (key, val));
            }
        }
    }
    lemma_props_wf_pairs(r);
}

/// Parsing a document, overlaying distinct keys, and rendering is stable:
/// parsing the rendered document and overlaying the same keys again
/// renders to the same bytes.
pub proof fn lemma_overlay_render_stable(s: Seq<u8>, kvs: Seq<(Seq<u8>, Seq<u8>)>)
    requires
        forall|a: int, b: int| 0 <= a < b < kvs.len() ==> (#[trigger] kvs[a]).0 != (#[trigger] kvs[b]).0,
        forall|i: int| 0 <= i < kvs.len() ==> wf_pair(#[trigger] kvs[i]),
    ensures
        ({
            let m1 = overlay_all(parse_props(s), kvs);
            render_props(overlay_all(parse_props(render_props(m1)), kvs)) == render_props(m1)
        }),
{
    let m0 = parse_props(s);
    let m1 = overlay_all(m0, kvs);
    lemma_parse_props_wf(s);
    lemma_overlay_all_wf(m0, kvs);
    lemma_props_roundtrip(m1);
    lemma_overlay_all_idempotent(m0, kvs);
}

proof fn lemma_overlay_all_wf(m: Seq<(Seq<u8>, Seq<u8>)>, kvs: Seq<(Seq<u8>, Seq<u8>)>)
    requires
        props_wf(m),
        forall|i: int| 0 <= i < kvs.len() ==> wf_pair(#[trigger] kvs[i]),
    ensures
        props_wf(overlay_all(m, kvs)),
    decreases kvs.len(),
{
    if kvs.len() > 0 {
        lemma_overlay_wf(m, kvs[0].0, kvs[0].1);
        assert(forall|i: int|
            0 <= i < kvs.drop_first().len() ==> #[trigger] kvs.drop_first()[i] == kvs[i + 1]);
        lemma_overlay_all_wf(overlay_props(m, kvs[0].0, kvs[0].1), kvs.drop_first());
    }
}

proof fn lemma_parse_parts_snoc(parts: Seq<Seq<u8>>, i: int)
    requires
        0 <= i < parts.len(),
    ensures
        parse_parts(parts.take(i + 1)) == parse_parts(parts.take(i)) + (if skip_line(parts[i]) {
            Seq::<(Seq<u8>, Seq<u8>)>::empty()
        } else {
            seq![parse_line(parts[i])]
        }),
    decreases i,
{
    if i == 0 {
        assert(parts.take(1) =~= seq![parts[0]]);
        assert(parts.take(0) =~= Seq::<Seq<u8>>::empty());
        assert(seq![parts[0]].drop_first() =~= Seq::<Seq<u8>>::empty());
        if skip_line(parts[0]) {
            assert(parse_parts(parts.take(1)) =~= parse_parts(parts.take(0)) + Seq::<
                (Seq<u8>, Seq<u8>),
            >::empty());
        } else {
            assert(parse_parts(parts.take(1)) =~= parse_parts(parts.take(0)) + seq![
                parse_line(parts[0]),
            ]);
        }
    } else {
        let shifted = parts.drop_first();
        lemma_parse_parts_snoc(shifted, i - 1);
        assert(parts.take(i + 1).drop_first() =~= shifted.take(i));
        assert(parts.take(i).drop_first() =~= shifted.take(i - 1));
        assert(parts.take(i + 1)[0] == parts[0]);
        assert(parts.take(i)[0] == parts[0]);
        assert(shifted[i - 1] == parts[i]);
        if skip_line(parts[0]) {
            assert(parse_parts(parts.take(i + 1)) == parse_parts(shifted.take(i)));
            assert(parse_parts(parts.take(i)) == parse_parts(shifted.take(i - 1)));
        } else {
            assert(parse_parts(parts.take(i + 1)) == seq![parse_line(parts[0])].add(
                parse_parts(shifted.take(i)),
            ));
            assert(parse_parts(parts.take(i)) == seq![parse_line(parts[0])].add(
                parse_parts(shifted.take(i - 1)),
            ));
        }
        assert(parse_parts(parts.take(i + 1)) =~= parse_parts(parts.take(i)) + (if skip_line(
            parts[i],
        ) {
            Seq::<(Seq<u8>, Seq<u8>)>::empty()
        } else {
            seq![parse_line(parts[i])]
        }));
    }
}

proof fn lemma_render_props_snoc(m: Seq<(Seq<u8>, Seq<u8>)>, i: int)
    requires
        0 <= i < m.len(),
    ensures
        render_props(m.take(i + 1)) == render_props(m.take(i)) + render_line(m[i]),
    decreases i,
{
    if i == 0 {
        assert(m.take(1) =~= seq![m[0]]);
        assert(m.take(0) =~= Seq::<(Seq<u8>, Seq<u8>)>::empty());
        assert(seq![m[0]].drop_first() =~= Seq::<(Seq<u8>, Seq<u8>)>::empty());
        assert(render_props(m.take(1)) =~= render_props(m.take(0)) + render_line(m[0]));
    } else {
        let shifted = m.drop_first();
        lemma_render_props_snoc(shifted, i - 1);
        assert(m.take(i + 1).drop_first() =~= shifted.take(i));
        assert(m.take(i).drop_first() =~= shifted.take(i - 1));
        assert(m.take(i + 1)[0] == m[0]);
        assert(m.take(i)[0] == m[0]);
        assert(shifted[i - 1] == m[i]);
        assert(render_props(m.take(i + 1)) =~= render_props(m.take(i)) + render_line(m[i]));
    }
}

/// Copies the byte range `[a, b)` of `v`.
pub fn sub_bytes(v: &Vec<u8>, a: usize, b: usize) -> (r: Vec<u8>)
    requires
        a <= b <= v@.len(),
    ensures
        r@ == v@.subrange(a as int, b as int),
{
    let mut r: Vec<u8> = Vec::new();
    let mut i: usize = a;
    while i < b
        invariant
            a <= i <= b <= v@.len(),
            r@ =~= v@.subrange(a as int, i as int),
        decreases b - i,
    {
        r.push(v[i]);
        proof {
            assert(r@ =~= v@.subrange(a as int, i + 1));
        }
        i = i + 1;
    }
    proof {
        assert(r@ =~= v@.subrange(a as int, b as int));
    }
    r
}

/// Whether two byte vectors hold the same bytes.
pub fn bytes_eq(a: &Vec<u8>, b: &[u8]) -> (r: bool)
    ensures
        r == (a@ == b@),
{
    if a.len() != b.len() {
        proof {
            if a@ == b@ {
                assert(a@.len() == b@.len());
            }
        }
        return false;
    }
    let mut i: usize = 0;
    while i < a.len()
        invariant
            a@.len() == b@.len(),
            0 <= i <= a@.len(),
            forall|j: int| 0 <= j < i ==> a@[j] == b@[j],
        decreases a@.len() - i,
    {
        if a[i] != b[i] {
            return false;
        }
        i = i + 1;
    }
    proof {
        assert(a@ =~= b@);
    }
    true
}

/// Splits bytes on the separator, keeping empty parts.
fn split_bytes_exec(s: &[u8], from: usize, sep: u8) -> (parts: Vec<Vec<u8>>)
    requires
        from <= s@.len(),
    ensures
        parts.deep_view() == split_bytes(s@.subrange(from as int, s@.len() as int), sep),
        parts.len() >= 1,
    decreases s@.len() - from,
{
    let ghost tail = s@.subrange(from as int, s@.len() as int);
    if from == s.len() {
        let mut parts: Vec<Vec<u8>> = Vec::new();
        parts.push(Vec::new());
        proof {
            assert(tail =~= Seq::<u8>::empty());
            assert(parts.deep_view() =~~= split_bytes(tail, sep));
        }
        parts
    } else {
        let c = s[from];
        let mut rest = split_bytes_exec(s, from + 1, sep);
        let ghost tail1 = s@.subrange(from + 1, s@.len() as int);
        proof {
            assert(tail.subrange(1, tail.len() as int) =~= tail1);
        }
        if c == sep {
            rest.insert(0, Vec::new());
            proof {
                assert(rest.deep_view() =~~= split_bytes(tail, sep));
            }
            rest
        } else {
            let mut first: Vec<u8> = Vec::new();
            first.push(c);
            let old_first = rest.remove(0);
            let mut k: usize = 0;
            while k < old_first.len()
                invariant
                    0 <= k <= old_first@.len(),
                    first@ =~= seq![tail[0]].add(old_first@.take(k as int)),
                    old_first@ == split_bytes(tail1, sep)[0],
                    tail[0] == c,
                decreases old_first@.len() - k,
            {
                first.push(old_first[k]);
                proof {
                    assert(first@ =~= seq![tail[0]].add(old_first@.take(k + 1)));
                }
                k = k + 1;
            }
            proof {
                assert(old_first@.take(old_first@.len() as int) =~= old_first@);
            }
            rest.insert(0, first);
            proof {
                assert(first@ =~= seq![tail[0]].add(split_bytes(tail1, sep)[0]));
                assert(rest.deep_view() =~~= split_bytes(tail, sep));
            }
            rest
        }
    }
}

/// The first index of `'='` in the line, if any.
fn find_eq(line: &Vec<u8>) -> (r: Option<usize>)
    ensures
        match r {
            Some(k) => find_byte(line@, 61) == k as int,
            None => find_byte(line@, 61) < 0,
        },
{
    let mut k: usize = 0;
    while k < line.len()
        invariant
            0 <= k <= line@.len(),
            forall|j: int| 0 <= j < k ==> #[trigger] line@[j] != 61,
        decreases line@.len() - k,
    {
        if line[k] == 61 {
            proof {
                lemma_find_byte_semantics(line@, 61);
            }
            return Some(k);
        }
        k = k + 1;
    }
    proof {
        lemma_find_byte_semantics(line@, 61);
    }
    None
}

/// Parses a properties document into its key-value pairs, in order.
pub fn parse_properties(input: &[u8]) -> (r: Vec<(Vec<u8>, Vec<u8>)>)
    ensures
        r.deep_view() == parse_props(input@),
{
    let parts = split_bytes_exec(input, 0, 10);
    proof {
        assert(input@.subrange(0, input@.len() as int) =~= input@);
    }
    let mut out: Vec<(Vec<u8>, Vec<u8>)> = Vec::new();
    let mut i: usize = 0;
    proof {
        assert(out.deep_view() =~~= parse_parts(parts.deep_view().take(0)));
    }
    while i < parts.len()
        invariant
            0 <= i <= parts@.len(),
            parts.deep_view() == split_bytes(input@, 10),
            out.deep_view() == parse_parts(parts.deep_view().take(i as int)),
        decreases parts@.len() - i,
    {
        proof {
            lemma_parse_parts_snoc(parts.deep_view(), i as int);
        }
        let line = &parts[i];
        let ghost linev = line@;
        proof {
            assert(parts.deep_view()[i as int] == linev);
        }
        let skip = line.len() == 0 || line[0] == 35 || line[0] == 33;
        if !skip {
            let pair: (Vec<u8>, Vec<u8>) = match find_eq(line) {
                Some(k) => {
                    proof {
                        lemma_find_byte_semantics(linev, 61);
                    }
                    let key = sub_bytes(line, 0, k);
                    let val = sub_bytes(line, k + 1, line.len());
                    proof {
                        assert(key@ =~= linev.take(k as int));
                        assert(val@ =~= linev.skip(k as int + 1));
                    }
                    (key, val)
                },
                None => {
                    let key = sub_bytes(line, 0, line.len());
                    proof {
                        assert(key@ =~= linev);
                    }
                    (key, Vec::new())
                },
            };
            let ghost pre = out.deep_view();
            out.push(pair);
            proof {
                assert(out.deep_view() =~~= pre.push(parse_line(linev)));
                assert(out.deep_view() =~~= parse_parts(parts.deep_view().take(i + 1)));
            }
        } else {
            proof {
                assert(out.deep_view() =~~= parse_parts(parts.deep_view().take(i + 1)));
            }
        }
        i = i + 1;
    }
    proof {
        assert(parts.deep_view().take(parts@.len() as int) =~= parts.deep_view());
    }
    out
}

/// Renders the pairs back into a properties document.
pub fn render_properties(m: &Vec<(Vec<u8>, Vec<u8>)>) -> (r: Vec<u8>)
    ensures
        r@ == render_props(m.deep_view()),
{
    let mut out: Vec<u8> = Vec::new();
    let mut i: usize = 0;
    proof {
        assert(out@ =~= render_props(m.deep_view().take(0)));
    }
    while i < m.len()
        invariant
            0 <= i <= m@.len(),
            out@ == render_props(m.deep_view().take(i as int)),
        decreases m@.len() - i,
    {
        proof {
            lemma_render_props_snoc(m.deep_view(), i as int);
        }
        let ghost pre = out@;
        let ghost kv = m.deep_view()[i as int];
        let mut k: usize = 0;
        let key = &m[i].0;
        while k < key.len()
            invariant
                0 <= k <= key@.len(),
                key@ == kv.0,
                out@ =~= pre + kv.0.take(k as int),
            decreases key@.len() - k,
        {
            out.push(key[k]);
            proof {
                assert(out@ =~= pre + kv.0.take(k + 1));
            }
            k = k + 1;
        }
        proof {
            assert(kv.0.take(kv.0.len() as int) =~= kv.0);
        }
        out.push(61);
        let ghost pre2 = out@;
        let val = &m[i].1;
        let mut k2: usize = 0;
        while k2 < val.len()
            invariant
                0 <= k2 <= val@.len(),
                val@ == kv.1,
                out@ =~= pre2 + kv.1.take(k2 as int),
            decreases val@.len() - k2,
        {
            out.push(val[k2]);
            proof {
                assert(out@ =~= pre2 + kv.1.take(k2 + 1));
            }
            k2 = k2 + 1;
        }
        proof {
            assert(kv.1.take(kv.1.len() as int) =~= kv.1);
        }
        out.push(10);
        proof {
            assert(out@ =~= pre + render_line(kv));
            assert(out@ =~= render_props(m.deep_view().take(i + 1)));
        }
        i = i + 1;
    }
    proof {
        assert(m.deep_view().take(m@.len() as int) =~= m.deep_view());
    }
    out
}

/// Overlays one key: updates every pair carrying it, or appends it.
pub fn set_property(m: &mut Vec<(Vec<u8>, Vec<u8>)>, key: &[u8], val: &[u8])
    ensures
        final(m).deep_view() == overlay_props(old(m).deep_view(), key@, val@),
{
    let ghost m0 = m.deep_view();
    let mut out: Vec<(Vec<u8>, Vec<u8>)> = Vec::new();
    let mut i: usize = 0;
    let mut found = false;
    while i < m.len()
        invariant
            0 <= i <= m@.len(),
            m.deep_view() == m0,
            out.deep_view().len() == i,
            found == exists|a: int| 0 <= a < i && (#[trigger] m0[a]).0 == key@,
            forall|a: int|
                0 <= a < i ==> #[trigger] out.deep_view()[a] == (if m0[a].0 == key@ {
                    (key@, val@)
                } else {
                    m0[a]
                }),
        decreases m@.len() - i,
    {
        let ghost pre = out.deep_view();
        let is_match = bytes_eq(&m[i].0, key);
        proof {
            assert(m@[i as int].0@ == m0[i as int].0);
        }
        if is_match {
            let kv = (crate::memfs::copy_bytes(key), crate::memfs::copy_bytes(val));
            out.push(kv);
            found = true;
            proof {
                assert(out.deep_view() =~~= pre.push((key@, val@)));
                assert(m0[i as int].0 == key@);
            }
        } else {
            let k2 = crate::memfs::copy_bytes(m[i].0.as_slice());
            let v2 = crate::memfs::copy_bytes(m[i].1.as_slice());
            out.push((k2, v2));
            proof {
                assert(m@[i as int].1@ == m0[i as int].1);
                assert(out.deep_view() =~~= pre.push(m0[i as int]));
            }
        }
        i = i + 1;
    }
    if !found {
        let kv = (crate::memfs::copy_bytes(key), crate::memfs::copy_bytes(val));
        let ghost pre = out.deep_view();
        out.push(kv);
        proof {
            assert(out.deep_view() =~~= pre.push((key@, val@)));
        }
    }
    proof {
        if exists|a: int| 0 <= a < m0.len() && (#[trigger] m0[a]).0 == key@ {
            assert(out.deep_view() =~~= overlay_props(m0, key@, val@));
        } else {
            assert(out.deep_view() =~~= m0.push((key@, val@)));
        }
    }
    *m = out;
}

} // verus!
