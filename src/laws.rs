//! Properties of the generated tree that hold for every machine.
use vstd::prelude::*;
use vstd::string::StringSliceAdditionalSpecFns;

use crate::fdt::{
    cpu_node, cpu_props, cpu_range, cpus_head, cpus_node, dev_keys, devices_tokens, fdt_tokens, insert_key, key_le, key_pos, lit, sort_keys,
    zlit, DeviceInfoForFDT, MPIDR_MASK, DeviceKey, DeviceType, GicDevice,
};
use crate::bytes::{be32, be64, hex};
use crate::writer::{
    blob, blob_size, cstrings, header, name_offset, string_table, strings_block, structure, Token, FDT_END, FDT_MAGIC, HEADER_SIZE,
    STRUCT_OFFSET,
};

verus! {

/// Whether `s` is in the order of device nodes.
pub open spec fn keys_sorted(s: Seq<DeviceKey>) -> bool {
    forall|i: int, j: int| 0 <= i < j < s.len() ==> key_le(s[i], s[j])
}

/// Whether no two virtio transports of `s` share an address.
pub open spec fn distinct_virtio_addrs(s: Seq<DeviceKey>) -> bool {
    forall|i: int, j: int|
        0 <= i < s.len() && 0 <= j < s.len() && i != j && s[i].rank == 2 && s[j].rank == 2
            ==> s[i].addr != s[j].addr
}

/// Where `x` goes: after a key that does not come after it, before keys that do.
proof fn lemma_key_pos(s: Seq<DeviceKey>, x: DeviceKey)
    ensures
        key_pos(s, x) <= s.len(),
        key_pos(s, x) > 0 ==> key_le(s[key_pos(s, x) - 1], x),
        forall|k: int| key_pos(s, x) <= k < s.len() ==> !key_le(s[k], x),
    decreases s.len(),
{
    if s.len() > 0 && !key_le(s.last(), x) {
        let d = s.drop_last();
        lemma_key_pos(d, x);
        assert forall|k: int| key_pos(s, x) <= k < s.len() implies !key_le(s[k], x) by {
            if k < s.len() - 1 {
                assert(d[k] == s[k]);
            }
        }
        if key_pos(s, x) > 0 {
            assert(d[key_pos(s, x) - 1] == s[key_pos(s, x) - 1]);
        }
    }
}

/// Sorting keeps the keys: as many of each.
proof fn lemma_sort_keys_multiset(s: Seq<DeviceKey>)
    ensures
        sort_keys(s).to_multiset() == s.to_multiset(),
        sort_keys(s).len() == s.len(),
    decreases s.len(),
{
    broadcast use vstd::seq_lib::group_to_multiset_ensures;
    if s.len() == 0 {
        assert(sort_keys(s) =~= s);
    } else {
        let d = s.drop_last();
        let x = s.last();
        let t = sort_keys(d);
        lemma_sort_keys_multiset(d);
        lemma_key_pos(t, x);
        let p = key_pos(t, x) as int;
        let r = insert_key(t, x);
        assert(r.remove(p) =~= t);
        assert(r[p] == x);
        assert(r.to_multiset().count(x) > 0) by {
            assert(r.contains(x));
        }
        assert(r.to_multiset() =~= t.to_multiset().insert(x));
        assert(s =~= d.push(x));
    }
}

/// Sorting puts the keys in the order of device nodes.
proof fn lemma_sort_keys_sorted(s: Seq<DeviceKey>)
    ensures
        keys_sorted(sort_keys(s)),
    decreases s.len(),
{
    if s.len() > 0 {
        let t = sort_keys(s.drop_last());
        let x = s.last();
        lemma_sort_keys_sorted(s.drop_last());
        lemma_key_pos(t, x);
        let p = key_pos(t, x) as int;
        let r = insert_key(t, x);
        assert forall|i: int, j: int| 0 <= i < j < r.len() implies key_le(r[i], r[j]) by {
            if j < p {
                assert(r[i] == t[i] && r[j] == t[j]);
            } else if j == p {
                assert(r[i] == t[i]);
                assert(key_le(t[i], t[p - 1]));
            } else if i > p {
                assert(r[i] == t[i - 1] && r[j] == t[j - 1]);
            } else if i == p {
                assert(r[j] == t[j - 1]);
                assert(!key_le(t[j - 1], x));
            } else {
                assert(r[i] == t[i] && r[j] == t[j - 1]);
            }
        }
    }
}

/// Two sorted sequences of the same keys are equal: the order of device nodes leaves no
/// choice.
proof fn lemma_sorted_unique(a: Seq<DeviceKey>, b: Seq<DeviceKey>)
    requires
        keys_sorted(a),
        keys_sorted(b),
        a.to_multiset() == b.to_multiset(),
    ensures
        a == b,
    decreases a.len(),
{
    broadcast use vstd::seq_lib::group_to_multiset_ensures;
    a.to_multiset_ensures();
    b.to_multiset_ensures();
    assert(a.len() == b.len());
    if a.len() == 0 {
        assert(a =~= b);
    } else {
        assert(a.contains(a[0]));
        assert(a.to_multiset().count(a[0]) > 0);
        assert(b.to_multiset().count(a[0]) > 0);
        assert(b.contains(a[0]));
        let j = choose|j: int| 0 <= j < b.len() && b[j] == a[0];
        assert(key_le(b[0], a[0]));
        assert(b.contains(b[0]));
        assert(b.to_multiset().count(b[0]) > 0);
        assert(a.to_multiset().count(b[0]) > 0);
        assert(a.contains(b[0]));
        let i = choose|i: int| 0 <= i < a.len() && a[i] == b[0];
        assert(key_le(a[0], b[0]));
        assert(a[0] == b[0]);
        assert(a.remove(0) =~= a.drop_first());
        assert(b.remove(0) =~= b.drop_first());
        assert(a.drop_first().to_multiset() == b.drop_first().to_multiset());
        assert(keys_sorted(a.drop_first())) by {
            assert forall|i: int, j: int| 0 <= i < j < a.drop_first().len() implies key_le(
                a.drop_first()[i],
                a.drop_first()[j],
            ) by {
                assert(a.drop_first()[i] == a[i + 1] && a.drop_first()[j] == a[j + 1]);
            }
        }
        assert(keys_sorted(b.drop_first())) by {
            assert forall|i: int, j: int| 0 <= i < j < b.drop_first().len() implies key_le(
                b.drop_first()[i],
                b.drop_first()[j],
            ) by {
                assert(b.drop_first()[i] == b[i + 1] && b.drop_first()[j] == b[j + 1]);
            }
        }
        lemma_sorted_unique(a.drop_first(), b.drop_first());
        assert forall|i: int| 0 <= i < a.len() implies a[i] == b[i] by {
            if i > 0 {
                assert(a.drop_first()[i - 1] == b.drop_first()[i - 1]);
            }
        }
        assert(a =~= b);
    }
}

/// The device nodes depend on what the devices are, not on the order of the list: two lists
/// that hold the same devices (the same kinds, addresses, interrupts and lengths, as many
/// of each) give the same nodes.
pub proof fn lemma_devices_same_contents<T: DeviceInfoForFDT>(
    d1: Seq<(DeviceType, T)>,
    d2: Seq<(DeviceType, T)>,
)
    requires
        dev_keys(d1).to_multiset() == dev_keys(d2).to_multiset(),
    ensures
        devices_tokens(d1) == devices_tokens(d2),
{
    lemma_sort_keys_multiset(dev_keys(d1));
    lemma_sort_keys_multiset(dev_keys(d2));
    lemma_sort_keys_sorted(dev_keys(d1));
    lemma_sort_keys_sorted(dev_keys(d2));
    lemma_sorted_unique(sort_keys(dev_keys(d1)), sort_keys(dev_keys(d2)));
}

/// Sorting keeps the virtio transports' addresses distinct.
proof fn lemma_sort_distinct(s: Seq<DeviceKey>)
    requires
        distinct_virtio_addrs(s),
    ensures
        distinct_virtio_addrs(sort_keys(s)),
    decreases s.len(),
{
    broadcast use vstd::seq_lib::group_to_multiset_ensures;
    if s.len() > 0 {
        let d = s.drop_last();
        let t = sort_keys(d);
        let x = s.last();
        assert(distinct_virtio_addrs(d)) by {
            assert forall|i: int, j: int|
                0 <= i < d.len() && 0 <= j < d.len() && i != j && d[i].rank == 2 && d[j].rank
                    == 2 implies d[i].addr != d[j].addr by {
                assert(d[i] == s[i] && d[j] == s[j]);
            }
        }
        lemma_sort_distinct(d);
        lemma_sort_keys_multiset(d);
        lemma_key_pos(t, x);
        let p = key_pos(t, x) as int;
        let r = insert_key(t, x);
        assert forall|k: int| 0 <= k < t.len() && t[k].rank == 2 && x.rank == 2 implies t[k].addr
            != x.addr by {
            assert(t.contains(t[k]));
            assert(t.to_multiset().count(t[k]) > 0);
            assert(d.contains(t[k]));
            let m = choose|m: int| 0 <= m < d.len() && d[m] == t[k];
            assert(s[m] == t[k]);
            assert(s[s.len() - 1] == x);
        }
        assert forall|i: int, j: int|
            0 <= i < r.len() && 0 <= j < r.len() && i != j && r[i].rank == 2 && r[j].rank == 2
                implies r[i].addr != r[j].addr by {
            let ti = if i < p { i } else { i - 1 };
            let tj = if j < p { j } else { j - 1 };
            if i != p && j != p {
                assert(r[i] == t[ti] && r[j] == t[tj]);
            } else if i == p {
                assert(r[j] == t[tj]);
            } else {
                assert(r[i] == t[ti]);
            }
        }
    }
}

/// The device nodes come in the order `key_le` gives: the same devices as the list holds,
/// every virtio transport after the other devices, the virtio transports by ascending
/// address, and by strictly ascending address when no two of them share one.
pub proof fn lemma_device_order<T: DeviceInfoForFDT>(devs: Seq<(DeviceType, T)>)
    ensures
        sort_keys(dev_keys(devs)).to_multiset() == dev_keys(devs).to_multiset(),
        keys_sorted(sort_keys(dev_keys(devs))),
        forall|i: int, j: int|
            0 <= i < j < sort_keys(dev_keys(devs)).len() && sort_keys(dev_keys(devs))[i].rank == 2
                ==> sort_keys(dev_keys(devs))[j].rank == 2 && sort_keys(dev_keys(devs))[i].addr
                <= sort_keys(dev_keys(devs))[j].addr,
        distinct_virtio_addrs(dev_keys(devs)) ==> forall|i: int, j: int|
            0 <= i < j < sort_keys(dev_keys(devs)).len() && sort_keys(dev_keys(devs))[i].rank == 2
                ==> sort_keys(dev_keys(devs))[i].addr < sort_keys(dev_keys(devs))[j].addr,
{
    let k = dev_keys(devs);
    lemma_sort_keys_multiset(k);
    lemma_sort_keys_sorted(k);
    let r = sort_keys(k);
    assert forall|i: int, j: int| 0 <= i < j < r.len() && r[i].rank == 2 implies r[j].rank == 2
        && r[i].addr <= r[j].addr by {
        assert(key_le(r[i], r[j]));
    }
    if distinct_virtio_addrs(k) {
        lemma_sort_distinct(k);
        assert forall|i: int, j: int| 0 <= i < j < r.len() && r[i].rank == 2 implies r[i].addr
            < r[j].addr by {
            assert(key_le(r[i], r[j]));
        }
    }
}

/// A CPU node carries an `enable-method` property exactly when there are several CPUs.
pub proof fn lemma_enable_method(mpidr: u64, num_cpus: nat)
    ensures
        cpu_props(mpidr, num_cpus).contains(
            Token::Property(lit("enable-method"), zlit("psci")),
        ) <==> num_cpus > 1,
        num_cpus <= 1 ==> forall|k: int|
            0 <= k < cpu_props(mpidr, num_cpus).len() ==> !(#[trigger] cpu_props(mpidr, num_cpus)[k]
                matches Token::Property(n, _) && n == lit("enable-method")),
{
    reveal_strlit("enable-method");
    reveal_strlit("device_type");
    reveal_strlit("compatible");
    reveal_strlit("reg");
    vstd::string::is_ascii_spec_bytes("enable-method");
    vstd::string::is_ascii_spec_bytes("device_type");
    vstd::string::is_ascii_spec_bytes("compatible");
    vstd::string::is_ascii_spec_bytes("reg");
    assert(vstd::string::is_ascii("enable-method"));
    assert(vstd::string::is_ascii("device_type"));
    assert(vstd::string::is_ascii("compatible"));
    assert(vstd::string::is_ascii("reg"));
    let ps = cpu_props(mpidr, num_cpus);
    let em = Token::Property(lit("enable-method"), zlit("psci"));
    if num_cpus > 1 {
        assert(ps[2] == em);
    } else {
        assert(lit("enable-method").len() == 13);
        assert(lit("device_type").len() == 11);
        assert(lit("compatible").len() == 10);
        assert(lit("reg").len() == 3);
        assert(ps.len() == 3);
        assert forall|k: int| 0 <= k < ps.len() implies !(#[trigger] ps[k] matches Token::Property(
            n,
            _,
        ) && n == lit("enable-method")) by {
            assert(k == 0 || k == 1 || k == 2);
        }
        if ps.contains(em) {
            let k = choose|k: int| 0 <= k < ps.len() && ps[k] == em;
            assert(k == 0 || k == 1 || k == 2);
        }
    }
}

/// Whether a token is a property named `enable-method`.
pub open spec fn is_enable_method(t: Token) -> bool {
    t matches Token::Property(n, _) && n == lit("enable-method")
}

/// Over the whole node that holds the CPUs: with one CPU no token is an `enable-method`
/// property; with several, every CPU node carries `enable-method = "psci"`.
pub proof fn lemma_cpus_enable_method(m: Seq<u64>)
    ensures
        m.len() == 1 ==> forall|k: int|
            0 <= k < cpus_node(m).len() ==> !is_enable_method(#[trigger] cpus_node(m)[k]),
        m.len() >= 2 ==> forall|i: nat|
            i < m.len() ==> #[trigger] cpu_node(m, i).contains(
                Token::Property(lit("enable-method"), zlit("psci")),
            ),
{
    reveal_strlit("enable-method");
    reveal_strlit("#address-cells");
    reveal_strlit("#size-cells");
    vstd::string::is_ascii_spec_bytes("enable-method");
    vstd::string::is_ascii_spec_bytes("#address-cells");
    vstd::string::is_ascii_spec_bytes("#size-cells");
    assert(vstd::string::is_ascii("enable-method"));
    assert(vstd::string::is_ascii("#address-cells"));
    assert(vstd::string::is_ascii("#size-cells"));
    assert(lit("enable-method").len() == 13);
    assert(lit("#address-cells").len() == 14);
    assert(lit("#size-cells").len() == 11);
    let em = Token::Property(lit("enable-method"), zlit("psci"));
    if m.len() == 1 {
        let c = cpus_node(m);
        let node = cpu_node(m, 0);
        let ps = cpu_props(m[0], 1);
        lemma_enable_method(m[0], 1);
        assert(cpu_range(m, 0, 1) =~= cpu_range(m, 0, 0) + node);
        assert(cpu_range(m, 0, 0) =~= Seq::<Token>::empty());
        let h = cpus_head();
        assert(c =~= h + (seq![Token::BeginNode(lit("cpu@") + hex(0))] + ps + seq![Token::EndNode])
            + seq![Token::EndNode]);
        assert forall|k: int| 0 <= k < c.len() implies !is_enable_method(#[trigger] c[k]) by {
            if 4 <= k < 4 + ps.len() {
                assert(c[k] == ps[k - 4]);
            }
        }
    }
    if m.len() >= 2 {
        assert forall|i: nat| i < m.len() implies #[trigger] cpu_node(m, i).contains(em) by {
            lemma_enable_method(m[i as int], m.len());
            let ps = cpu_props(m[i as int], m.len());
            let j = choose|j: int| 0 <= j < ps.len() && ps[j] == em;
            assert(cpu_node(m, i)[j + 1] == em);
        }
    }
}

/// Each CPU node's `reg` is its affinity value cut to the bits that name a CPU for boot;
/// an affinity value with every bit set gives `0x7FFFFF`.
pub proof fn lemma_affinity_mask(m: Seq<u64>, i: nat)
    requires
        i < m.len(),
    ensures
        cpu_node(m, i).contains(Token::Property(lit("reg"), be64(m[i as int] & MPIDR_MASK))),
        m[i as int] == 0xFFFF_FFFF_FFFF_FFFFu64 ==> m[i as int] & MPIDR_MASK == 0x7F_FFFFu64,
{
    let ps = cpu_props(m[i as int], m.len());
    let t = Token::Property(lit("reg"), be64(m[i as int] & MPIDR_MASK));
    assert(ps[ps.len() - 1] == t);
    assert(cpu_node(m, i)[ps.len() as int] == t);
    let x = m[i as int];
    assert(x == 0xFFFF_FFFF_FFFF_FFFFu64 ==> x & 0x7F_FFFFu64 == 0x7F_FFFFu64) by (bit_vector);
}

/// Whether two optional device lists hold the same devices, whatever their order.
pub open spec fn same_devices<T: DeviceInfoForFDT>(
    a: Option<Seq<(DeviceType, T)>>,
    b: Option<Seq<(DeviceType, T)>>,
) -> bool {
    match (a, b) {
        (Some(x), Some(y)) => dev_keys(x).to_multiset() == dev_keys(y).to_multiset(),
        (None, None) => true,
        _ => false,
    }
}

/// The blob is a function of the machine's description alone: two builds from the same
/// memory, CPUs, command line and interrupt controller, and lists that hold the same devices
/// in any order, give the same blob.
pub proof fn lemma_deterministic<T: DeviceInfoForFDT>(
    mem_end: u64,
    vcpu_mpidr: Seq<u64>,
    cmdline: Seq<u8>,
    device_info: Option<Seq<(DeviceType, T)>>,
    gic: GicDevice,
    device_info2: Option<Seq<(DeviceType, T)>>,
    gic2: GicDevice,
)
    requires
        same_devices(device_info, device_info2),
        gic.compatibility@ == gic2.compatibility@,
        gic.properties@ == gic2.properties@,
        gic.maint_irq == gic2.maint_irq,
    ensures
        fdt_tokens(mem_end, vcpu_mpidr, cmdline, device_info, gic) == fdt_tokens(
            mem_end,
            vcpu_mpidr,
            cmdline,
            device_info2,
            gic2,
        ),
        blob(fdt_tokens(mem_end, vcpu_mpidr, cmdline, device_info, gic)) == blob(
            fdt_tokens(mem_end, vcpu_mpidr, cmdline, device_info2, gic2),
        ),
{
    match (device_info, device_info2) {
        (Some(x), Some(y)) => {
            lemma_devices_same_contents(x, y);
        },
        _ => {},
    }
}


/// The blob describes its own layout: it is as long as its header's total size, its
/// header is followed by the empty reservation block, and the structure block (with its end
/// token) and the strings block sit at the offsets and with the sizes that the header gives.
pub proof fn lemma_blob_layout(toks: Seq<Token>)
    requires
        blob_size(toks) <= u32::MAX,
    ensures
        blob(toks).len() == blob_size(toks),
        blob(toks).subrange(0, 4) == be32(FDT_MAGIC),
        blob(toks).subrange(4, 8) == be32(blob_size(toks) as u32),
        blob(toks).subrange(8, 12) == be32(STRUCT_OFFSET),
        blob(toks).subrange(12, 16) == be32((STRUCT_OFFSET + structure(toks).len() + 4) as u32),
        blob(toks).subrange(16, 20) == be32(HEADER_SIZE),
        blob(toks).subrange(32, 36) == be32(strings_block(toks).len() as u32),
        blob(toks).subrange(36, 40) == be32((structure(toks).len() + 4) as u32),
        blob(toks).subrange(40, 56) == Seq::new(16, |i: int| 0u8),
        blob(toks).subrange(56, (56 + structure(toks).len() + 4) as int) == structure(toks) + be32(FDT_END),
        blob(toks).subrange((56 + structure(toks).len() + 4) as int, blob(toks).len() as int)
            == strings_block(toks),
{
    let s = structure(toks) + be32(FDT_END);
    let st = strings_block(toks);
    let h = header(s.len(), st.len());
    let b = blob(toks);
    assert(h.len() == 40);
    assert(b == h + Seq::new(16, |i: int| 0u8) + s + st);
    assert(b.subrange(0, 4) =~= be32(FDT_MAGIC));
    assert(b.subrange(4, 8) =~= be32(blob_size(toks) as u32));
    assert(b.subrange(8, 12) =~= be32(STRUCT_OFFSET));
    assert(b.subrange(12, 16) =~= be32((STRUCT_OFFSET + structure(toks).len() + 4) as u32));
    assert(b.subrange(16, 20) =~= be32(HEADER_SIZE));
    assert(b.subrange(32, 36) =~= be32(st.len() as u32));
    assert(b.subrange(36, 40) =~= be32(s.len() as u32));
    assert(b.subrange(40, 56) =~= Seq::new(16, |i: int| 0u8));
    assert(b.subrange(56, (56 + s.len()) as int) =~= s);
    assert(b.subrange((56 + s.len()) as int, b.len() as int) =~= st);
}

/// The strings of a table, read from the front.
proof fn lemma_cstrings_front(t: Seq<Seq<u8>>)
    requires
        t.len() > 0,
    ensures
        cstrings(t) == t[0].push(0) + cstrings(t.drop_first()),
    decreases t.len(),
{
    if t.len() > 1 {
        lemma_cstrings_front(t.drop_last());
        assert(t.drop_last().drop_first() =~= t.drop_first().drop_last());
        assert(t.drop_first().last() == t.last());
        assert(cstrings(t) =~= t[0].push(0) + cstrings(t.drop_first()));
    } else {
        assert(t.drop_last() =~= Seq::<Seq<u8>>::empty());
        assert(t.drop_first() =~= Seq::<Seq<u8>>::empty());
        assert(cstrings(t) =~= t[0].push(0) + cstrings(t.drop_first()));
    }
}

/// A name of the strings table can be read back, null terminator included, at its offset.
pub proof fn lemma_name_at_offset(t: Seq<Seq<u8>>, n: Seq<u8>)
    requires
        t.contains(n),
    ensures
        name_offset(t, n) + n.len() + 1 <= cstrings(t).len(),
        cstrings(t).subrange(name_offset(t, n) as int, (name_offset(t, n) + n.len() + 1) as int) == n.push(0),
    decreases t.len(),
{
    lemma_cstrings_front(t);
    let rest = cstrings(t.drop_first());
    if t[0] == n {
        assert(cstrings(t).subrange(0, (n.len() + 1) as int) =~= n.push(0));
    } else {
        let k = choose|k: int| 0 <= k < t.len() && t[k] == n;
        assert(t.drop_first()[k - 1] == n);
        lemma_name_at_offset(t.drop_first(), n);
        let o = name_offset(t.drop_first(), n);
        let h = t[0].len() + 1;
        assert(cstrings(t).subrange((h + o) as int, (h + o + n.len() + 1) as int) =~= rest.subrange(
            o as int,
            (o + n.len() + 1) as int,
        ));
    }
}

/// A name keeps its offset when later names join the table.
pub proof fn lemma_name_offset_stable(t: Seq<Seq<u8>>, x: Seq<u8>, n: Seq<u8>)
    requires
        t.contains(n),
    ensures
        name_offset(t.push(x), n) == name_offset(t, n),
    decreases t.len(),
{
    if t[0] != n {
        let k = choose|k: int| 0 <= k < t.len() && t[k] == n;
        assert(t.drop_first()[k - 1] == n);
        assert(t.push(x).drop_first() =~= t.drop_first().push(x));
        lemma_name_offset_stable(t.drop_first(), x, n);
    }
}

/// Every property's name is in the strings table once the property is written, and stays at
/// the offset that the property's token records, so a reader finds each property's name in
/// the final strings block.
pub proof fn lemma_property_name_found(toks: Seq<Token>, k: int)
    requires
        0 <= k < toks.len(),
        toks[k] matches Token::Property(n, _),
    ensures
        ({
            let n = toks[k]->Property_0;
            let t = string_table(toks);
            &&& t.contains(n)
            &&& name_offset(t, n) == name_offset(string_table(toks.take(k)), n)
            &&& cstrings(t).subrange(name_offset(t, n) as int, (name_offset(t, n) + n.len() + 1) as int)
                == n.push(0)
        }),
    decreases toks.len(),
{
    let n = toks[k]->Property_0;
    lemma_table_grows(toks, k);
    lemma_name_at_offset(string_table(toks), n);
}

/// Once in the table, a name stays, at the same offset; where it first joins, its offset is
/// the end of the table before it.
proof fn lemma_table_grows(toks: Seq<Token>, k: int)
    requires
        0 <= k < toks.len(),
        toks[k] matches Token::Property(n, _),
    ensures
        string_table(toks).contains(toks[k]->Property_0),
        name_offset(string_table(toks), toks[k]->Property_0) == name_offset(
            string_table(toks.take(k)),
            toks[k]->Property_0,
        ),
    decreases toks.len(),
{
    let n = toks[k]->Property_0;
    let d = toks.drop_last();
    assert(toks.drop_last() =~= d);
    if k == toks.len() - 1 {
        assert(toks.take(k) =~= d);
        let t = string_table(d);
        if !t.contains(n) {
            assert(string_table(toks) == t.push(n));
            assert(t.push(n)[t.len() as int] == n);
            lemma_offset_of_new(t, n);
        }
    } else {
        assert(d[k] == toks[k]);
        assert(d.take(k) =~= toks.take(k));
        lemma_table_grows(d, k);
        let t = string_table(d);
        match toks.last() {
            Token::Property(m, _) => {
                if !t.contains(m) {
                    lemma_name_offset_stable(t, m, n);
                    let j = choose|j: int| 0 <= j < t.len() && t[j] == n;
                    assert(t.push(m)[j] == n);
                }
            },
            _ => {},
        }
    }
}

/// A name that joins the table lands at its end, where the token recorded it.
proof fn lemma_offset_of_new(t: Seq<Seq<u8>>, n: Seq<u8>)
    requires
        !t.contains(n),
    ensures
        name_offset(t.push(n), n) == name_offset(t, n),
        t.push(n).contains(n),
    decreases t.len(),
{
    assert(t.push(n)[t.len() as int] == n);
    if t.len() > 0 {
        assert(t[0] != n);
        assert(t.push(n).drop_first() =~= t.drop_first().push(n));
        assert(!t.drop_first().contains(n)) by {
            if t.drop_first().contains(n) {
                let j = choose|j: int| 0 <= j < t.drop_first().len() && t.drop_first()[j] == n;
                assert(t[j + 1] == n);
            }
        }
        lemma_offset_of_new(t.drop_first(), n);
    }
}

} // verus!
