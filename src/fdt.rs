//! The device tree of an aarch64 microVM: the nodes a guest kernel expects, in the order
//! it expects them.
use vstd::prelude::*;
use vstd::string::StringSliceAdditionalSpecFns;

use crate::bytes::{
    be32, be64, cells32, cells64, generate_prop32, generate_prop64, has_nul, hex, push_all,
    slice_has_nul, to_be32,
};
use crate::writer::{
    append_node, build_outcome, depth, node_tokens, prop_tokens, FdtWriter, Property, Token,
};

verus! {

/// Phandle of the interrupt controller's node.
pub const GIC_PHANDLE: u32 = 1;
/// Phandle of the fixed clock's node.
pub const CLOCK_PHANDLE: u32 = 2;
/// Cells of an address in the root node's children.
pub const ADDRESS_CELLS: u32 = 0x2;
/// Cells of a size in the root node's children.
pub const SIZE_CELLS: u32 = 0x2;
/// First interrupt cell of a shared peripheral interrupt.
pub const GIC_FDT_IRQ_TYPE_SPI: u32 = 0;
/// First interrupt cell of a processor-private interrupt.
pub const GIC_FDT_IRQ_TYPE_PPI: u32 = 1;
/// Trigger on a rising edge.
pub const IRQ_TYPE_EDGE_RISING: u32 = 1;
/// Trigger on a high level.
pub const IRQ_TYPE_LEVEL_HI: u32 = 4;
/// Size of the working buffer, and so the largest blob.
pub const FDT_MAX_SIZE: usize = 0x20_0000;
/// Start of guest memory.
pub const DRAM_MEM_START: u64 = 0x8000_0000;
/// The bits of an affinity value that name a CPU for boot.
pub const MPIDR_MASK: u64 = 0x7F_FFFF;

/// The bytes of a literal.
pub open spec fn lit(s: &str) -> Seq<u8> {
    s.spec_bytes()
}

/// The bytes of a literal and a null terminator.
pub open spec fn zlit(s: &str) -> Seq<u8> {
    s.spec_bytes().push(0)
}

/// A property token named by a literal.
pub open spec fn prop(name: &str, value: Seq<u8>) -> Token {
    Token::Property(lit(name), value)
}

/// A node without children: its name, then its properties, then its end.
pub open spec fn leaf(name: Seq<u8>, props: Seq<Token>) -> Seq<Token> {
    seq![Token::BeginNode(name)] + props + seq![Token::EndNode]
}

/// The description of the interrupt controller that the tree declares.
pub struct GicDevice {
    /// Its compatibility string, without a null terminator.
    pub compatibility: Vec<u8>,
    /// Its register ranges, as 64-bit cells.
    pub properties: Vec<u64>,
    /// Its maintenance interrupt.
    pub maint_irq: u32,
}

/// The memory node: the region from the start of guest memory to `mem_end`.
pub open spec fn memory_node(mem_end: u64) -> Seq<Token> {
    leaf(
        lit("memory"),
        seq![
            prop("device_type", zlit("memory")),
            prop("reg", cells64(seq![DRAM_MEM_START, (mem_end - DRAM_MEM_START) as u64])),
        ],
    )
}

/// The chosen node, which carries the kernel command line.
pub open spec fn chosen_node(cmdline: Seq<u8>) -> Seq<Token> {
    leaf(lit("chosen"), seq![prop("bootargs", cmdline.push(0))])
}

/// The interrupt controller's node.
pub open spec fn gic_node(compatibility: Seq<u8>, properties: Seq<u64>, maint_irq: u32) -> Seq<
    Token,
> {
    leaf(
        lit("intc"),
        seq![
            prop("compatible", compatibility.push(0)),
            prop("interrupt-controller", Seq::empty()),
            prop("#interrupt-cells", be32(3)),
            prop("reg", cells64(properties)),
            prop("phandle", be32(GIC_PHANDLE)),
            prop("#address-cells", be32(2)),
            prop("#size-cells", be32(2)),
            prop("ranges", Seq::empty()),
            prop("interrupts", cells32(seq![GIC_FDT_IRQ_TYPE_PPI, maint_irq, IRQ_TYPE_LEVEL_HI])),
        ],
    )
}

/// The architected timer's interrupts: four processor-private interrupts, level-high.
pub open spec fn timer_irq_cells() -> Seq<u32> {
    seq![
        GIC_FDT_IRQ_TYPE_PPI, 13, IRQ_TYPE_LEVEL_HI,
        GIC_FDT_IRQ_TYPE_PPI, 14, IRQ_TYPE_LEVEL_HI,
        GIC_FDT_IRQ_TYPE_PPI, 11, IRQ_TYPE_LEVEL_HI,
        GIC_FDT_IRQ_TYPE_PPI, 10, IRQ_TYPE_LEVEL_HI,
    ]
}

/// The timer node.
pub open spec fn timer_node() -> Seq<Token> {
    leaf(
        lit("timer"),
        seq![
            prop("compatible", zlit("arm,armv8-timer")),
            prop("always-on", Seq::empty()),
            prop("interrupts", cells32(timer_irq_cells())),
        ],
    )
}

/// The fixed 24 MHz clock of the peripheral bus.
pub open spec fn clock_node() -> Seq<Token> {
    leaf(
        lit("apb-pclk"),
        seq![
            prop("compatible", zlit("fixed-clock")),
            prop("#clock-cells", be32(0)),
            prop("clock-frequency", be32(24000000)),
            prop("clock-output-names", zlit("clk24mhz")),
            prop("phandle", be32(CLOCK_PHANDLE)),
        ],
    )
}

/// The power state coordination interface, called through the hypervisor conduit.
pub open spec fn psci_node() -> Seq<Token> {
    leaf(lit("psci"), seq![prop("compatible", zlit("arm,psci-0.2")), prop("method", zlit("hvc"))])
}

/// A property whose name is `name` and whose value is `value`.
fn make_prop(name: &str, value: Vec<u8>) -> (p: Property)
    ensures
        p.name@ == lit(name),
        p.value@ == value@,
{
    Property { name: vstd::slice::slice_to_vec(name.as_bytes()), value }
}

/// A string property.
fn prop_str(name: &str, value: &[u8]) -> (p: Property)
    ensures
        p.name@ == lit(name),
        p.value@ == value@.push(0),
{
    let mut v = vstd::slice::slice_to_vec(value);
    v.push(0);
    make_prop(name, v)
}

/// A property of one 32-bit cell.
fn prop_u32(name: &str, value: u32) -> (p: Property)
    ensures
        p.name@ == lit(name),
        p.value@ == be32(value),
{
    let mut v: Vec<u8> = Vec::new();
    push_all(&mut v, &to_be32(value));
    make_prop(name, v)
}

/// A flag property.
fn prop_null(name: &str) -> (p: Property)
    ensures
        p.name@ == lit(name),
        p.value@ == Seq::<u8>::empty(),
{
    make_prop(name, Vec::new())
}

/// Whether `ps` carries, one for one, the tokens `ts`.
pub open spec fn carries(ps: Seq<Property>, ts: Seq<Token>) -> bool {
    prop_tokens(ps) == ts
}

proof fn lemma_carries(ps: Seq<Property>, ts: Seq<Token>)
    requires
        ps.len() == ts.len(),
        forall|i: int|
            0 <= i < ps.len() ==> ts[i] == Token::Property(
                (#[trigger] ps[i]).name@,
                ps[i].value@,
            ),
    ensures
        carries(ps, ts),
{
    assert(prop_tokens(ps) =~= ts);
}

/// Appends the memory node; `mem_end` is the end of guest memory.
pub fn create_memory_node(fdt: &mut FdtWriter, mem_end: u64) -> (r: Result<(), crate::writer::Error>)
    requires
        old(fdt).valid(),
        depth(old(fdt).tokens()) > 0,
        mem_end >= DRAM_MEM_START,
    ensures
        build_outcome(*old(fdt), *final(fdt), memory_node(mem_end), false, r),
        depth(memory_node(mem_end)) == 0,
{
    let mem_size = mem_end - DRAM_MEM_START;
    let mut props: Vec<Property> = Vec::new();
    props.push(prop_str("device_type", "memory".as_bytes()));
    props.push(make_prop("reg", generate_prop64(&[DRAM_MEM_START, mem_size])));
    proof {
        lemma_carries(props@, seq![
            prop("device_type", zlit("memory")),
            prop("reg", cells64(seq![DRAM_MEM_START, (mem_end - DRAM_MEM_START) as u64])),
        ]);
    }
    append_node(fdt, "memory".as_bytes(), &props)
}

/// Appends the chosen node; fails when the command line holds a null byte.
pub fn create_chosen_node(fdt: &mut FdtWriter, cmdline: &[u8]) -> (r: Result<(), crate::writer::Error>)
    requires
        old(fdt).valid(),
        depth(old(fdt).tokens()) > 0,
    ensures
        build_outcome(*old(fdt), *final(fdt), chosen_node(cmdline@), has_nul(cmdline@), r),
        depth(chosen_node(cmdline@)) == 0,
{
    proof {
        reveal(build_outcome);
    }
    proof {
        crate::writer::lemma_leaf_depth(lit("chosen"), seq![prop("bootargs", cmdline@.push(0))]);
    }
    if slice_has_nul(cmdline) {
        proof {
            crate::writer::lemma_prefix_none(fdt.tokens(), chosen_node(cmdline@));
        }
        return Err(crate::writer::Error::CstringFDTTransform);
    }
    let mut props: Vec<Property> = Vec::new();
    props.push(prop_str("bootargs", cmdline));
    proof {
        lemma_carries(props@, seq![prop("bootargs", cmdline@.push(0))]);
    }
    append_node(fdt, "chosen".as_bytes(), &props)
}

/// Appends the interrupt controller's node; fails when its compatibility string holds a
/// null byte.
pub fn create_gic_node(fdt: &mut FdtWriter, gic_device: &GicDevice) -> (r: Result<
    (),
    crate::writer::Error,
>)
    requires
        old(fdt).valid(),
        depth(old(fdt).tokens()) > 0,
    ensures
        build_outcome(
            *old(fdt),
            *final(fdt),
            gic_node(gic_device.compatibility@, gic_device.properties@, gic_device.maint_irq),
            has_nul(gic_device.compatibility@),
            r,
        ),
        depth(gic_node(gic_device.compatibility@, gic_device.properties@, gic_device.maint_irq))
            == 0,
{
    proof {
        reveal(build_outcome);
    }
    let ghost ts = seq![
        prop("compatible", gic_device.compatibility@.push(0)),
        prop("interrupt-controller", Seq::empty()),
        prop("#interrupt-cells", be32(3)),
        prop("reg", cells64(gic_device.properties@)),
        prop("phandle", be32(GIC_PHANDLE)),
        prop("#address-cells", be32(2)),
        prop("#size-cells", be32(2)),
        prop("ranges", Seq::empty()),
        prop("interrupts", cells32(seq![GIC_FDT_IRQ_TYPE_PPI, gic_device.maint_irq, IRQ_TYPE_LEVEL_HI])),
    ];
    proof {
        crate::writer::lemma_leaf_depth(lit("intc"), ts);
    }
    if slice_has_nul(gic_device.compatibility.as_slice()) {
        proof {
            crate::writer::lemma_prefix_none(
                fdt.tokens(),
                gic_node(gic_device.compatibility@, gic_device.properties@, gic_device.maint_irq),
            );
        }
        return Err(crate::writer::Error::CstringFDTTransform);
    }
    let gic_reg_prop = generate_prop64(gic_device.properties.as_slice());
    let gic_intr = [GIC_FDT_IRQ_TYPE_PPI, gic_device.maint_irq, IRQ_TYPE_LEVEL_HI];
    let mut props: Vec<Property> = Vec::new();
    props.push(prop_str("compatible", gic_device.compatibility.as_slice()));
    props.push(prop_null("interrupt-controller"));
    props.push(prop_u32("#interrupt-cells", 3));
    props.push(make_prop("reg", gic_reg_prop));
    props.push(prop_u32("phandle", GIC_PHANDLE));
    props.push(prop_u32("#address-cells", 2));
    props.push(prop_u32("#size-cells", 2));
    props.push(prop_null("ranges"));
    props.push(make_prop("interrupts", generate_prop32(&gic_intr)));
    proof {
        lemma_carries(props@, ts);
    }
    append_node(fdt, "intc".as_bytes(), &props)
}

/// Appends the architected timer's node.
pub fn create_timer_node(fdt: &mut FdtWriter) -> (r: Result<(), crate::writer::Error>)
    requires
        old(fdt).valid(),
        depth(old(fdt).tokens()) > 0,
    ensures
        build_outcome(*old(fdt), *final(fdt), timer_node(), false, r),
        depth(timer_node()) == 0,
{
    let ghost ts = seq![
        prop("compatible", zlit("arm,armv8-timer")),
        prop("always-on", Seq::empty()),
        prop("interrupts", cells32(timer_irq_cells())),
    ];
    proof {
        crate::writer::lemma_leaf_depth(lit("timer"), ts);
    }
    let irqs: [u32; 4] = [13, 14, 11, 10];
    let mut timer_reg_cells: Vec<u32> = Vec::new();
    let mut i: usize = 0;
    while i < 4
        invariant
            i <= 4,
            irqs@ == seq![13u32, 14u32, 11u32, 10u32],
            timer_reg_cells@ == timer_irq_cells().take(3 * i),
        decreases 4 - i,
    {
        timer_reg_cells.push(GIC_FDT_IRQ_TYPE_PPI);
        timer_reg_cells.push(irqs[i]);
        timer_reg_cells.push(IRQ_TYPE_LEVEL_HI);
        i = i + 1;
        assert(timer_reg_cells@ =~= timer_irq_cells().take(3 * i));
    }
    assert(timer_reg_cells@ =~= timer_irq_cells());
    let mut props: Vec<Property> = Vec::new();
    props.push(prop_str("compatible", "arm,armv8-timer".as_bytes()));
    props.push(prop_null("always-on"));
    props.push(make_prop("interrupts", generate_prop32(timer_reg_cells.as_slice())));
    proof {
        lemma_carries(props@, ts);
    }
    append_node(fdt, "timer".as_bytes(), &props)
}

/// Appends the fixed clock's node.
pub fn create_clock_node(fdt: &mut FdtWriter) -> (r: Result<(), crate::writer::Error>)
    requires
        old(fdt).valid(),
        depth(old(fdt).tokens()) > 0,
    ensures
        build_outcome(*old(fdt), *final(fdt), clock_node(), false, r),
        depth(clock_node()) == 0,
{
    let ghost ts = seq![
        prop("compatible", zlit("fixed-clock")),
        prop("#clock-cells", be32(0)),
        prop("clock-frequency", be32(24000000)),
        prop("clock-output-names", zlit("clk24mhz")),
        prop("phandle", be32(CLOCK_PHANDLE)),
    ];
    proof {
        crate::writer::lemma_leaf_depth(lit("apb-pclk"), ts);
    }
    let mut props: Vec<Property> = Vec::new();
    props.push(prop_str("compatible", "fixed-clock".as_bytes()));
    props.push(prop_u32("#clock-cells", 0x0));
    props.push(prop_u32("clock-frequency", 24000000));
    props.push(prop_str("clock-output-names", "clk24mhz".as_bytes()));
    props.push(prop_u32("phandle", CLOCK_PHANDLE));
    proof {
        lemma_carries(props@, ts);
    }
    append_node(fdt, "apb-pclk".as_bytes(), &props)
}

/// Appends the power state coordination interface's node.
pub fn create_psci_node(fdt: &mut FdtWriter) -> (r: Result<(), crate::writer::Error>)
    requires
        old(fdt).valid(),
        depth(old(fdt).tokens()) > 0,
    ensures
        build_outcome(*old(fdt), *final(fdt), psci_node(), false, r),
        depth(psci_node()) == 0,
{
    let ghost ts = seq![prop("compatible", zlit("arm,psci-0.2")), prop("method", zlit("hvc"))];
    proof {
        crate::writer::lemma_leaf_depth(lit("psci"), ts);
    }
    let mut props: Vec<Property> = Vec::new();
    props.push(prop_str("compatible", "arm,psci-0.2".as_bytes()));
    props.push(prop_str("method", "hvc".as_bytes()));
    proof {
        lemma_carries(props@, ts);
    }
    append_node(fdt, "psci".as_bytes(), &props)
}

/// The properties of the CPU with affinity value `mpidr`, among `num_cpus` CPUs.
pub open spec fn cpu_props(mpidr: u64, num_cpus: nat) -> Seq<Token> {
    seq![prop("device_type", zlit("cpu")), prop("compatible", zlit("arm,arm-v8"))] + (if num_cpus
        > 1 {
        seq![prop("enable-method", zlit("psci"))]
    } else {
        seq![]
    }) + seq![prop("reg", be64(mpidr & MPIDR_MASK))]
}

/// The node of CPU `index`, named by its index in hexadecimal.
pub open spec fn cpu_node(mpidrs: Seq<u64>, index: nat) -> Seq<Token> {
    leaf(lit("cpu@") + hex(index), cpu_props(mpidrs[index as int], mpidrs.len()))
}

/// The nodes of the CPUs from `lo` up to `hi`, excluded.
pub open spec fn cpu_range(mpidrs: Seq<u64>, lo: nat, hi: nat) -> Seq<Token>
    decreases hi,
{
    if hi <= lo {
        seq![]
    } else {
        cpu_range(mpidrs, lo, (hi - 1) as nat) + cpu_node(mpidrs, (hi - 1) as nat)
    }
}

/// The head of the node that holds the CPUs.
pub open spec fn cpus_head() -> Seq<Token> {
    seq![
        Token::BeginNode(lit("cpus")),
        prop("#address-cells", be32(0x02)),
        prop("#size-cells", be32(0x0)),
    ]
}

/// The node that holds one node for each CPU.
pub open spec fn cpus_node(mpidrs: Seq<u64>) -> Seq<Token> {
    cpus_head() + cpu_range(mpidrs, 0, mpidrs.len()) + seq![Token::EndNode]
}

/// Splitting a range of CPU nodes.
pub proof fn lemma_cpu_range_split(mpidrs: Seq<u64>, lo: nat, mid: nat, hi: nat)
    requires
        lo <= mid <= hi,
    ensures
        cpu_range(mpidrs, lo, hi) == cpu_range(mpidrs, lo, mid) + cpu_range(mpidrs, mid, hi),
    decreases hi,
{
    if hi == mid {
        assert(cpu_range(mpidrs, lo, mid) + cpu_range(mpidrs, mid, hi) =~= cpu_range(
            mpidrs,
            lo,
            mid,
        ));
    } else {
        lemma_cpu_range_split(mpidrs, lo, mid, (hi - 1) as nat);
        assert(cpu_range(mpidrs, lo, hi) =~= cpu_range(mpidrs, lo, mid) + cpu_range(
            mpidrs,
            mid,
            hi,
        ));
    }
}

/// A range of CPU nodes opens and closes nothing.
pub proof fn lemma_cpu_range_depth(mpidrs: Seq<u64>, lo: nat, hi: nat)
    requires
        hi <= mpidrs.len(),
    ensures
        depth(cpu_range(mpidrs, lo, hi)) == 0,
    decreases hi,
{
    if hi > lo {
        lemma_cpu_range_depth(mpidrs, lo, (hi - 1) as nat);
        let i = (hi - 1) as nat;
        crate::writer::lemma_leaf_depth(lit("cpu@") + hex(i), cpu_props(mpidrs[i as int], mpidrs.len()));
        crate::writer::lemma_depth_concat(cpu_range(mpidrs, lo, i), cpu_node(mpidrs, i));
    }
}

/// Opens the node that holds the CPUs and gives it its cell counts.
fn create_cpus_head(fdt: &mut FdtWriter) -> (r: Result<(), crate::writer::Error>)
    requires
        old(fdt).valid(),
        depth(old(fdt).tokens()) > 0,
    ensures
        build_outcome(*old(fdt), *final(fdt), cpus_head(), false, r),
        depth(cpus_head()) == 1,
{
    proof {
        reveal(build_outcome);
    }
    let ghost before = fdt.tokens();
    let ghost head = cpus_head();
    proof {
        crate::writer::lemma_push(Seq::<Token>::empty(), head[0]);
        crate::writer::lemma_push(head.take(1), head[1]);
        crate::writer::lemma_push(head.take(2), head[2]);
        assert(head.take(1) =~= Seq::<Token>::empty().push(head[0]));
        assert(head.take(2) =~= head.take(1).push(head[1]));
        assert(head =~= head.take(2).push(head[2]));
        crate::writer::lemma_depth_concat(before, head);
        crate::writer::lemma_depth_concat(before, head.take(1));
        crate::writer::lemma_depth_concat(before, head.take(2));
        assert(before.push(head[0]) =~= before + head.take(1));
        assert(before.push(head[0]).push(head[1]) =~= before + head.take(2));
    }
    let r = crate::writer::append_begin_node(fdt, "cpus".as_bytes());
    proof {
        crate::writer::lemma_part(before, Seq::empty(), seq![head[0]], head.skip(1));
        assert(Seq::<Token>::empty() + seq![head[0]] + head.skip(1) =~= head);
        assert(before + Seq::<Token>::empty() + seq![head[0]] =~= before.push(head[0]));
    }
    if r.is_err() {
        proof {
            crate::writer::lemma_prefix_none(before, head);
        }
        return r;
    }
    let r = crate::writer::append_property_u32(fdt, "#address-cells".as_bytes(), 0x02);
    proof {
        crate::writer::lemma_part(before, head.take(1), seq![head[1]], head.skip(2));
        assert(head.take(1) + seq![head[1]] + head.skip(2) =~= head);
        assert(before + head.take(1) + seq![head[1]] =~= before.push(head[0]).push(head[1]));
    }
    if r.is_err() {
        proof {
            crate::writer::lemma_prefix_none(fdt.tokens(), seq![head[1]]);
            crate::writer::lemma_prefix_mid(before, head.take(1), seq![head[1]], head.skip(2), fdt.tokens());
        }
        return r;
    }
    let r = crate::writer::append_property_u32(fdt, "#size-cells".as_bytes(), 0x0);
    proof {
        crate::writer::lemma_part(before, head.take(2), seq![head[2]], Seq::empty());
        assert(head.take(2) + seq![head[2]] + Seq::<Token>::empty() =~= head);
        assert(before + head.take(2) + seq![head[2]] =~= before.push(head[0]).push(head[1]).push(
            head[2],
        ));
        assert(before + head =~= before.push(head[0]).push(head[1]).push(head[2]));
        if r is Err {
            crate::writer::lemma_prefix_none(fdt.tokens(), seq![head[2]]);
            crate::writer::lemma_prefix_mid(before, head.take(2), seq![head[2]], Seq::empty(), fdt.tokens());
        }
        if r is Ok {
            assert forall|j: int| 0 <= j < head.len() implies crate::writer::name_ok(
                #[trigger] head[j],
            ) by {
                assert(j == 0 || j == 1 || j == 2);
            }
        }
    }
    r
}

/// Appends one node for each CPU.
#[verifier::rlimit(50)]
fn create_cpu_children(fdt: &mut FdtWriter, vcpu_mpidr: &Vec<u64>) -> (r: Result<
    (),
    crate::writer::Error,
>)
    requires
        old(fdt).valid(),
        depth(old(fdt).tokens()) > 0,
    ensures
        build_outcome(
            *old(fdt),
            *final(fdt),
            cpu_range(vcpu_mpidr@, 0, vcpu_mpidr@.len()),
            false,
            r,
        ),
        depth(cpu_range(vcpu_mpidr@, 0, vcpu_mpidr@.len())) == 0,
{
    proof {
        reveal(build_outcome);
    }
    let ghost m = vcpu_mpidr@;
    let ghost before = fdt.tokens();
    let ghost n = m.len();
    let ghost full = cpu_range(m, 0, n);
    proof {
        lemma_cpu_range_depth(m, 0, n);
        assert(cpu_range(m, 0, 0) =~= Seq::<Token>::empty());
        assert(crate::writer::names_ok(cpu_range(m, 0, 0)));
        assert(fdt.tokens() =~= before + cpu_range(m, 0, 0));
    }
    let num_cpus = vcpu_mpidr.len();
    let mut cpu_index: usize = 0;
    while cpu_index < num_cpus
        invariant
            fdt.valid(),
            fdt.max_size() == old(fdt).max_size(),
            before == old(fdt).tokens(),
            m == vcpu_mpidr@,
            n == m.len(),
            num_cpus == n,
            full == cpu_range(m, 0, n),
            cpu_index <= n,
            fdt.tokens() == before + cpu_range(m, 0, cpu_index as nat),
            depth(fdt.tokens()) == depth(before),
            depth(before) > 0,
            crate::writer::names_ok(cpu_range(m, 0, cpu_index as nat)),
            depth(full) == 0,
        decreases n - cpu_index,
    {
        proof {
            reveal(build_outcome);
        }
        let ghost i = cpu_index as nat;
        let ghost done = cpu_range(m, 0, i);
        proof {
            lemma_cpu_step(m, i);
            crate::writer::lemma_part(before, done, cpu_node(m, i), cpu_range(m, i + 1, n));
        }
        let r = create_cpu_node(fdt, vcpu_mpidr, cpu_index);
        if r.is_err() {
            proof {
                crate::writer::lemma_prefix_mid(before, done, cpu_node(m, i), cpu_range(m, i + 1, n), fdt.tokens());
            }
            return r;
        }
        proof {
            assert(fdt.tokens() =~= before + cpu_range(m, 0, i + 1));
            crate::writer::lemma_depth_concat(before + done, cpu_node(m, i));
            crate::writer::lemma_names_concat(done, cpu_node(m, i));
        }
        cpu_index = cpu_index + 1;
    }
    proof {
        assert(cpu_range(m, 0, n) =~= full);
    }
    Ok(())
}

/// Appends the node that holds the CPUs, one child for each affinity value.
#[verifier::spinoff_prover]
pub fn create_cpu_nodes(fdt: &mut FdtWriter, vcpu_mpidr: &Vec<u64>) -> (r: Result<
    (),
    crate::writer::Error,
>)
    requires
        old(fdt).valid(),
        depth(old(fdt).tokens()) > 0,
    ensures
        build_outcome(*old(fdt), *final(fdt), cpus_node(vcpu_mpidr@), false, r),
        depth(cpus_node(vcpu_mpidr@)) == 0,
{
    proof {
        reveal(build_outcome);
    }
    let ghost m = vcpu_mpidr@;
    let ghost before = fdt.tokens();
    let ghost head = cpus_head();
    let ghost body = cpu_range(m, 0, m.len());
    let ghost tail = seq![Token::EndNode];
    let ghost full = cpus_node(m);
    proof {
        lemma_cpu_range_depth(m, 0, m.len());
        crate::writer::lemma_push(Seq::<Token>::empty(), Token::EndNode);
        assert(tail =~= Seq::<Token>::empty().push(Token::EndNode));
        crate::writer::lemma_depth_concat(head, body);
        crate::writer::lemma_depth_concat(head + body, tail);
        crate::writer::lemma_depth_concat(before, full);
        crate::writer::lemma_part(before, Seq::empty(), head, body + tail);
        assert(Seq::<Token>::empty() + head + (body + tail) =~= full);
        assert(before + Seq::<Token>::empty() + head =~= before + head);
    }
    let r = create_cpus_head(fdt);
    if r.is_err() {
        proof {
            crate::writer::lemma_prefix_mid(before, Seq::empty(), head, body + tail, fdt.tokens());
        }
        return r;
    }
    proof {
        crate::writer::lemma_depth_concat(before, head);
        crate::writer::lemma_part(before, head, body, tail);
        assert(head + body + tail =~= full);
    }
    let r = create_cpu_children(fdt, vcpu_mpidr);
    if r.is_err() {
        proof {
            crate::writer::lemma_prefix_mid(before, head, body, tail, fdt.tokens());
        }
        return r;
    }
    proof {
        crate::writer::lemma_part(before, head + body, tail, Seq::empty());
        assert(head + body + tail + Seq::<Token>::empty() =~= full);
        assert(before + (head + body) + tail =~= fdt.tokens().push(Token::EndNode));
        assert(before + head + body =~= before + (head + body));
        assert(before + full =~= fdt.tokens().push(Token::EndNode));
        crate::writer::lemma_depth_concat(before + head, body);
        crate::writer::lemma_prefix_none(fdt.tokens(), tail);
        crate::writer::lemma_prefix_mid(before, head + body, tail, Seq::empty(), fdt.tokens());
        if crate::writer::names_ok(head) && crate::writer::names_ok(body) {
            assert forall|j: int| 0 <= j < full.len() implies crate::writer::name_ok(
                #[trigger] full[j],
            ) by {
                if j < head.len() {
                    assert(full[j] == head[j]);
                } else if j < head.len() + body.len() {
                    assert(full[j] == body[j - head.len()]);
                }
            }
        }
    }
    crate::writer::append_end_node(fdt)
}

/// A property of two 32-bit cells.
fn make_prop_u64(name: &str, value: u64) -> (p: Property)
    ensures
        p.name@ == lit(name),
        p.value@ == be64(value),
{
    let mut v: Vec<u8> = Vec::new();
    push_all(&mut v, &crate::bytes::to_be64(value));
    make_prop(name, v)
}

/// The CPU nodes before, at and after index `i`.
proof fn lemma_cpu_step(m: Seq<u64>, i: nat)
    requires
        i < m.len(),
    ensures
        cpu_range(m, 0, i + 1) == cpu_range(m, 0, i) + cpu_node(m, i),
        cpu_range(m, 0, i) + cpu_node(m, i) + cpu_range(m, i + 1, m.len()) == cpu_range(
            m,
            0,
            m.len(),
        ),
{
    lemma_cpu_range_split(m, 0, i, m.len());
    lemma_cpu_range_split(m, i, i + 1, m.len());
    assert(cpu_range(m, i, i) =~= Seq::<Token>::empty());
    assert(cpu_range(m, i, i + 1) =~= cpu_node(m, i));
    lemma_cpu_range_split(m, 0, i, i + 1);
}

/// Appends the node of CPU `cpu_index`.
fn create_cpu_node(fdt: &mut FdtWriter, vcpu_mpidr: &Vec<u64>, cpu_index: usize) -> (r: Result<
    (),
    crate::writer::Error,
>)
    requires
        old(fdt).valid(),
        depth(old(fdt).tokens()) > 0,
        cpu_index < vcpu_mpidr@.len(),
    ensures
        build_outcome(*old(fdt), *final(fdt), cpu_node(vcpu_mpidr@, cpu_index as nat), false, r),
        depth(cpu_node(vcpu_mpidr@, cpu_index as nat)) == 0,
{
    let num_cpus = vcpu_mpidr.len();
    let mut name: Vec<u8> = vstd::slice::slice_to_vec("cpu@".as_bytes());
    let digits = crate::bytes::hex_name(cpu_index as u64);
    push_all(&mut name, digits.as_slice());
    let mut props: Vec<Property> = Vec::new();
    props.push(prop_str("device_type", "cpu".as_bytes()));
    props.push(prop_str("compatible", "arm,arm-v8".as_bytes()));
    if num_cpus > 1 {
        props.push(prop_str("enable-method", "psci".as_bytes()));
    }
    props.push(make_prop_u64("reg", vcpu_mpidr[cpu_index] & MPIDR_MASK));
    proof {
        lemma_carries(props@, cpu_props(vcpu_mpidr@[cpu_index as int], num_cpus as nat));
    }
    append_node(fdt, name.as_slice(), &props)
}

/// The kind of a platform device.
#[derive(Clone, Copy, Debug, PartialEq, Eq, Structural, Hash)]
pub enum DeviceType {
    /// A virtio transport over memory-mapped I/O, of the given virtio device type.
    Virtio(u32),
    /// The serial console.
    Serial,
    /// The real-time clock.
    RTC,
}

/// Where a device sits: its address, its interrupt and the length of its address space.
pub trait DeviceInfoForFDT {
    /// The address where the device is loaded.
    spec fn spec_addr(&self) -> u64;

    /// The device's interrupt.
    spec fn spec_irq(&self) -> u32;

    /// The length of address space reserved for the device.
    spec fn spec_length(&self) -> u64;

    /// Returns the address where this device will be loaded.
    fn addr(&self) -> (r: u64)
        ensures
            r == self.spec_addr(),
    ;

    /// Returns the associated interrupt for this device.
    fn irq(&self) -> (r: u32)
        ensures
            r == self.spec_irq(),
    ;

    /// Returns the amount of memory that needs to be reserved for this device.
    fn length(&self) -> (r: u64)
        ensures
            r == self.spec_length(),
    ;
}

/// A memory-mapped device described by plain values.
#[derive(Clone, Copy, Debug, PartialEq, Eq, Structural)]
pub struct MmioDeviceInfo {
    pub addr: u64,
    pub irq: u32,
    pub length: u64,
}

impl DeviceInfoForFDT for MmioDeviceInfo {
    open spec fn spec_addr(&self) -> u64 {
        self.addr
    }

    open spec fn spec_irq(&self) -> u32 {
        self.irq
    }

    open spec fn spec_length(&self) -> u64 {
        self.length
    }

    fn addr(&self) -> (r: u64) {
        self.addr
    }

    fn irq(&self) -> (r: u32) {
        self.irq
    }

    fn length(&self) -> (r: u64) {
        self.length
    }
}

/// The `reg` value of a device: its address and its length, as 64-bit cells.
pub open spec fn dev_reg<T: DeviceInfoForFDT>(d: T) -> Seq<u8> {
    cells64(seq![d.spec_addr(), d.spec_length()])
}

/// The node of a virtio transport.
pub open spec fn virtio_node<T: DeviceInfoForFDT>(d: T) -> Seq<Token> {
    leaf(
        lit("virtio_mmio@") + hex(d.spec_addr() as nat),
        seq![
            prop("compatible", zlit("virtio,mmio")),
            prop("reg", dev_reg(d)),
            prop("interrupts", cells32(seq![GIC_FDT_IRQ_TYPE_SPI, d.spec_irq(), IRQ_TYPE_EDGE_RISING])),
            prop("interrupt-parent", be32(GIC_PHANDLE)),
        ],
    )
}

/// The node of the serial console.
pub open spec fn serial_node<T: DeviceInfoForFDT>(d: T) -> Seq<Token> {
    leaf(
        lit("uart@") + hex(d.spec_addr() as nat),
        seq![
            prop("compatible", zlit("ns16550a")),
            prop("reg", dev_reg(d)),
            prop("clocks", be32(CLOCK_PHANDLE)),
            prop("clock-names", zlit("apb_pclk")),
            prop("interrupts", cells32(seq![GIC_FDT_IRQ_TYPE_SPI, d.spec_irq(), IRQ_TYPE_EDGE_RISING])),
        ],
    )
}

/// The node of the real-time clock.
pub open spec fn rtc_node<T: DeviceInfoForFDT>(d: T) -> Seq<Token> {
    leaf(
        lit("rtc@") + hex(d.spec_addr() as nat),
        seq![
            prop("compatible", zlit("arm,pl031") + zlit("arm,primecell")),
            prop("reg", dev_reg(d)),
            prop("interrupts", cells32(seq![GIC_FDT_IRQ_TYPE_SPI, d.spec_irq(), IRQ_TYPE_LEVEL_HI])),
            prop("clocks", be32(CLOCK_PHANDLE)),
            prop("clock-names", zlit("apb_pclk")),
        ],
    )
}

/// What the tree takes from a device: the rank of its kind (serial console, real-time
/// clock, virtio transport), its address, its interrupt and its length.
#[derive(Clone, Copy, Debug, PartialEq, Eq, Structural)]
pub struct DeviceKey {
    pub rank: u8,
    pub addr: u64,
    pub irq: u32,
    pub length: u64,
}

/// The rank of a kind of device: the serial console, then the real-time clock, then the
/// virtio transports.
pub open spec fn kind_rank(kind: DeviceType) -> u8 {
    match kind {
        DeviceType::Serial => 0,
        DeviceType::RTC => 1,
        DeviceType::Virtio(_) => 2,
    }
}

/// The key of a device of the given kind.
pub open spec fn dev_key<T: DeviceInfoForFDT>(kind: DeviceType, d: T) -> DeviceKey {
    DeviceKey { rank: kind_rank(kind), addr: d.spec_addr(), irq: d.spec_irq(), length: d.spec_length() }
}

/// The keys of a list of devices.
pub open spec fn dev_keys<T: DeviceInfoForFDT>(devs: Seq<(DeviceType, T)>) -> Seq<DeviceKey> {
    devs.map_values(|p: (DeviceType, T)| dev_key(p.0, p.1))
}

/// The order of device nodes: every other device before the virtio transports, then by
/// ascending address, then by kind, interrupt and length. It depends on the devices' values
/// alone, so the list they come in does not matter.
pub open spec fn key_le(a: DeviceKey, b: DeviceKey) -> bool {
    if (a.rank == 2) != (b.rank == 2) {
        b.rank == 2
    } else if a.addr != b.addr {
        a.addr < b.addr
    } else if a.rank != b.rank {
        a.rank < b.rank
    } else if a.irq != b.irq {
        a.irq < b.irq
    } else {
        a.length <= b.length
    }
}

/// The device that a key describes.
pub open spec fn key_info(k: DeviceKey) -> MmioDeviceInfo {
    MmioDeviceInfo { addr: k.addr, irq: k.irq, length: k.length }
}

/// The node of the device that a key describes.
pub open spec fn key_node(k: DeviceKey) -> Seq<Token> {
    if k.rank == 0 {
        serial_node(key_info(k))
    } else if k.rank == 1 {
        rtc_node(key_info(k))
    } else {
        virtio_node(key_info(k))
    }
}

/// The nodes of the devices that `s` describes, in the order of `s`.
pub open spec fn key_nodes(s: Seq<DeviceKey>) -> Seq<Token>
    decreases s.len(),
{
    if s.len() == 0 {
        seq![]
    } else {
        key_nodes(s.drop_last()) + key_node(s.last())
    }
}

/// Where `x` goes in the sorted `s`: after the last key that does not come after it.
pub open spec fn key_pos(s: Seq<DeviceKey>, x: DeviceKey) -> nat
    decreases s.len(),
{
    if s.len() == 0 {
        0
    } else if key_le(s.last(), x) {
        s.len()
    } else {
        key_pos(s.drop_last(), x)
    }
}

/// `s` with `x` inserted at its place.
pub open spec fn insert_key(s: Seq<DeviceKey>, x: DeviceKey) -> Seq<DeviceKey> {
    s.take(key_pos(s, x) as int) + seq![x] + s.skip(key_pos(s, x) as int)
}

/// `s` sorted by `key_le`.
pub open spec fn sort_keys(s: Seq<DeviceKey>) -> Seq<DeviceKey>
    decreases s.len(),
{
    if s.len() == 0 {
        seq![]
    } else {
        insert_key(sort_keys(s.drop_last()), s.last())
    }
}

/// The nodes of all devices, in the order `key_le` gives them.
pub open spec fn devices_tokens<T: DeviceInfoForFDT>(devs: Seq<(DeviceType, T)>) -> Seq<Token> {
    key_nodes(sort_keys(dev_keys(devs)))
}

/// The `reg` value of a device, from its trait methods.
fn device_reg<T: DeviceInfoForFDT>(dev_info: &T) -> (r: Vec<u8>)
    ensures
        r@ == dev_reg(*dev_info),
{
    let cells = [dev_info.addr(), dev_info.length()];
    generate_prop64(&cells)
}

/// The name of a device's node: a prefix and the device's address in hexadecimal.
fn device_name<T: DeviceInfoForFDT>(prefix: &str, dev_info: &T) -> (r: Vec<u8>)
    ensures
        r@ == lit(prefix) + hex(dev_info.spec_addr() as nat),
{
    let mut name: Vec<u8> = vstd::slice::slice_to_vec(prefix.as_bytes());
    let digits = crate::bytes::hex_name(dev_info.addr());
    push_all(&mut name, digits.as_slice());
    name
}

/// Appends the node of a virtio transport.
pub fn create_virtio_node<T: DeviceInfoForFDT>(fdt: &mut FdtWriter, dev_info: &T) -> (r: Result<
    (),
    crate::writer::Error,
>)
    requires
        old(fdt).valid(),
        depth(old(fdt).tokens()) > 0,
    ensures
        build_outcome(*old(fdt), *final(fdt), virtio_node(*dev_info), false, r),
        depth(virtio_node(*dev_info)) == 0,
{
    let irq = [GIC_FDT_IRQ_TYPE_SPI, dev_info.irq(), IRQ_TYPE_EDGE_RISING];
    let mut props: Vec<Property> = Vec::new();
    props.push(prop_str("compatible", "virtio,mmio".as_bytes()));
    props.push(make_prop("reg", device_reg(dev_info)));
    props.push(make_prop("interrupts", generate_prop32(&irq)));
    props.push(prop_u32("interrupt-parent", GIC_PHANDLE));
    let name = device_name("virtio_mmio@", dev_info);
    proof {
        lemma_carries(props@, seq![
            prop("compatible", zlit("virtio,mmio")),
            prop("reg", dev_reg(*dev_info)),
            prop("interrupts", cells32(seq![GIC_FDT_IRQ_TYPE_SPI, dev_info.spec_irq(), IRQ_TYPE_EDGE_RISING])),
            prop("interrupt-parent", be32(GIC_PHANDLE)),
        ]);
    }
    append_node(fdt, name.as_slice(), &props)
}

/// Appends the node of the serial console.
pub fn create_serial_node<T: DeviceInfoForFDT>(fdt: &mut FdtWriter, dev_info: &T) -> (r: Result<
    (),
    crate::writer::Error,
>)
    requires
        old(fdt).valid(),
        depth(old(fdt).tokens()) > 0,
    ensures
        build_outcome(*old(fdt), *final(fdt), serial_node(*dev_info), false, r),
        depth(serial_node(*dev_info)) == 0,
{
    let irq = [GIC_FDT_IRQ_TYPE_SPI, dev_info.irq(), IRQ_TYPE_EDGE_RISING];
    let mut props: Vec<Property> = Vec::new();
    props.push(prop_str("compatible", "ns16550a".as_bytes()));
    props.push(make_prop("reg", device_reg(dev_info)));
    props.push(prop_u32("clocks", CLOCK_PHANDLE));
    props.push(prop_str("clock-names", "apb_pclk".as_bytes()));
    props.push(make_prop("interrupts", generate_prop32(&irq)));
    let name = device_name("uart@", dev_info);
    proof {
        lemma_carries(props@, seq![
            prop("compatible", zlit("ns16550a")),
            prop("reg", dev_reg(*dev_info)),
            prop("clocks", be32(CLOCK_PHANDLE)),
            prop("clock-names", zlit("apb_pclk")),
            prop("interrupts", cells32(seq![GIC_FDT_IRQ_TYPE_SPI, dev_info.spec_irq(), IRQ_TYPE_EDGE_RISING])),
        ]);
    }
    append_node(fdt, name.as_slice(), &props)
}

/// Appends the node of the real-time clock.
pub fn create_rtc_node<T: DeviceInfoForFDT>(fdt: &mut FdtWriter, dev_info: &T) -> (r: Result<
    (),
    crate::writer::Error,
>)
    requires
        old(fdt).valid(),
        depth(old(fdt).tokens()) > 0,
    ensures
        build_outcome(*old(fdt), *final(fdt), rtc_node(*dev_info), false, r),
        depth(rtc_node(*dev_info)) == 0,
{
    let mut compatible: Vec<u8> = vstd::slice::slice_to_vec("arm,pl031".as_bytes());
    compatible.push(0);
    push_all(&mut compatible, "arm,primecell".as_bytes());
    compatible.push(0);
    let irq = [GIC_FDT_IRQ_TYPE_SPI, dev_info.irq(), IRQ_TYPE_LEVEL_HI];
    let mut props: Vec<Property> = Vec::new();
    props.push(make_prop("compatible", compatible));
    props.push(make_prop("reg", device_reg(dev_info)));
    props.push(make_prop("interrupts", generate_prop32(&irq)));
    props.push(prop_u32("clocks", CLOCK_PHANDLE));
    props.push(prop_str("clock-names", "apb_pclk".as_bytes()));
    let name = device_name("rtc@", dev_info);
    proof {
        assert(props@[0].value@ =~= zlit("arm,pl031") + zlit("arm,primecell"));
        lemma_carries(props@, seq![
            prop("compatible", zlit("arm,pl031") + zlit("arm,primecell")),
            prop("reg", dev_reg(*dev_info)),
            prop("interrupts", cells32(seq![GIC_FDT_IRQ_TYPE_SPI, dev_info.spec_irq(), IRQ_TYPE_LEVEL_HI])),
            prop("clocks", be32(CLOCK_PHANDLE)),
            prop("clock-names", zlit("apb_pclk")),
        ]);
    }
    append_node(fdt, name.as_slice(), &props)
}

/// The nodes of two lists of keys, one after the other.
pub proof fn lemma_key_nodes_concat(a: Seq<DeviceKey>, b: Seq<DeviceKey>)
    ensures
        key_nodes(a + b) == key_nodes(a) + key_nodes(b),
    decreases b.len(),
{
    if b.len() == 0 {
        assert(a + b =~= a);
        assert(key_nodes(a) + key_nodes(b) =~= key_nodes(a));
    } else {
        lemma_key_nodes_concat(a, b.drop_last());
        assert((a + b).drop_last() =~= a + b.drop_last());
        assert(key_nodes(a + b) =~= key_nodes(a) + key_nodes(b));
    }
}

/// One device node opens and closes nothing.
pub proof fn lemma_key_node_depth(k: DeviceKey)
    ensures
        depth(key_node(k)) == 0,
{
    let d = key_info(k);
    let reg = dev_reg(d);
    crate::writer::lemma_leaf_depth(lit("virtio_mmio@") + hex(d.spec_addr() as nat), seq![
        prop("compatible", zlit("virtio,mmio")),
        prop("reg", reg),
        prop("interrupts", cells32(seq![GIC_FDT_IRQ_TYPE_SPI, d.spec_irq(), IRQ_TYPE_EDGE_RISING])),
        prop("interrupt-parent", be32(GIC_PHANDLE)),
    ]);
    crate::writer::lemma_leaf_depth(lit("uart@") + hex(d.spec_addr() as nat), seq![
        prop("compatible", zlit("ns16550a")),
        prop("reg", reg),
        prop("clocks", be32(CLOCK_PHANDLE)),
        prop("clock-names", zlit("apb_pclk")),
        prop("interrupts", cells32(seq![GIC_FDT_IRQ_TYPE_SPI, d.spec_irq(), IRQ_TYPE_EDGE_RISING])),
    ]);
    crate::writer::lemma_leaf_depth(lit("rtc@") + hex(d.spec_addr() as nat), seq![
        prop("compatible", zlit("arm,pl031") + zlit("arm,primecell")),
        prop("reg", reg),
        prop("interrupts", cells32(seq![GIC_FDT_IRQ_TYPE_SPI, d.spec_irq(), IRQ_TYPE_LEVEL_HI])),
        prop("clocks", be32(CLOCK_PHANDLE)),
        prop("clock-names", zlit("apb_pclk")),
    ]);
}

/// Device nodes open and close nothing.
pub proof fn lemma_key_nodes_depth(s: Seq<DeviceKey>)
    ensures
        depth(key_nodes(s)) == 0,
    decreases s.len(),
{
    if s.len() > 0 {
        lemma_key_nodes_depth(s.drop_last());
        lemma_key_node_depth(s.last());
        crate::writer::lemma_depth_concat(key_nodes(s.drop_last()), key_node(s.last()));
    }
}

/// The nodes of a list of keys up to index `j` and one more.
proof fn lemma_key_step(s: Seq<DeviceKey>, j: int)
    requires
        0 <= j < s.len(),
    ensures
        key_nodes(s.take(j + 1)) == key_nodes(s.take(j)) + key_node(s[j]),
        key_nodes(s) == key_nodes(s.take(j)) + key_node(s[j]) + key_nodes(s.skip(j + 1)),
{
    assert(s.take(j + 1).drop_last() =~= s.take(j));
    assert(s.take(j + 1) + s.skip(j + 1) =~= s);
    lemma_key_nodes_concat(s.take(j + 1), s.skip(j + 1));
}

/// The key of a device, from its trait methods.
fn device_key<T: DeviceInfoForFDT>(kind: &DeviceType, d: &T) -> (k: DeviceKey)
    ensures
        k == dev_key(*kind, *d),
{
    let rank: u8 = match kind {
        DeviceType::Serial => 0,
        DeviceType::RTC => 1,
        DeviceType::Virtio(_) => 2,
    };
    DeviceKey { rank, addr: d.addr(), irq: d.irq(), length: d.length() }
}

/// Whether `a` comes no later than `b`.
fn key_le_exec(a: &DeviceKey, b: &DeviceKey) -> (r: bool)
    ensures
        r == key_le(*a, *b),
{
    if (a.rank == 2) != (b.rank == 2) {
        b.rank == 2
    } else if a.addr != b.addr {
        a.addr < b.addr
    } else if a.rank != b.rank {
        a.rank < b.rank
    } else if a.irq != b.irq {
        a.irq < b.irq
    } else {
        a.length <= b.length
    }
}

/// Inserts `k` into the sorted `keys` at its place.
fn insert_key_sorted(keys: &mut Vec<DeviceKey>, k: DeviceKey)
    ensures
        final(keys)@ == insert_key(old(keys)@, k),
{
    let ghost s = keys@;
    let mut pos = keys.len();
    let mut done = false;
    proof {
        assert(s.take(pos as int) =~= s);
    }
    while pos > 0 && !done
        invariant
            keys@ == s,
            s == old(keys)@,
            pos <= s.len(),
            key_pos(s, k) == key_pos(s.take(pos as int), k),
            done ==> pos > 0 && key_le(s[pos - 1], k),
        decreases pos + (if done { 0int } else { 1int }),
    {
        if key_le_exec(&keys[pos - 1], &k) {
            done = true;
        } else {
            proof {
                assert(s.take(pos as int).drop_last() =~= s.take(pos - 1));
            }
            pos = pos - 1;
        }
    }
    proof {
        if done {
            assert(s.take(pos as int).last() == s[pos - 1]);
        } else {
            assert(s.take(pos as int) =~= Seq::<DeviceKey>::empty());
        }
    }
    keys.insert(pos, k);
    proof {
        assert(keys@ =~= s.take(pos as int) + seq![k] + s.skip(pos as int));
    }
}

/// Appends the node of the device that `k` describes.
fn create_key_node(fdt: &mut FdtWriter, k: DeviceKey) -> (r: Result<(), crate::writer::Error>)
    requires
        old(fdt).valid(),
        depth(old(fdt).tokens()) > 0,
    ensures
        build_outcome(*old(fdt), *final(fdt), key_node(k), false, r),
{
    let info = MmioDeviceInfo { addr: k.addr, irq: k.irq, length: k.length };
    if k.rank == 0 {
        create_serial_node(fdt, &info)
    } else if k.rank == 1 {
        create_rtc_node(fdt, &info)
    } else {
        create_virtio_node(fdt, &info)
    }
}

/// Appends the nodes of the devices that `keys` describes, in the order of `keys`.
#[verifier::rlimit(100)]
#[verifier::spinoff_prover]
fn create_key_nodes(fdt: &mut FdtWriter, keys: &Vec<DeviceKey>) -> (r: Result<(), crate::writer::Error>)
    requires
        old(fdt).valid(),
        depth(old(fdt).tokens()) > 0,
    ensures
        build_outcome(*old(fdt), *final(fdt), key_nodes(keys@), false, r),
        depth(key_nodes(keys@)) == 0,
{
    proof {
        reveal(build_outcome);
    }
    let ghost before = fdt.tokens();
    let ghost sorted = keys@;
    let ghost full = key_nodes(sorted);
    proof {
        lemma_key_nodes_depth(sorted);
        assert(sorted.take(0) =~= Seq::<DeviceKey>::empty());
        assert(fdt.tokens() =~= before + key_nodes(sorted.take(0)));
        assert(crate::writer::names_ok(key_nodes(sorted.take(0))));
    }
    let mut j: usize = 0;
    while j < keys.len()
        invariant
            fdt.valid(),
            fdt.max_size() == old(fdt).max_size(),
            before == old(fdt).tokens(),
            keys@ == sorted,
            full == key_nodes(sorted),
            depth(full) == 0,
            j <= sorted.len(),
            fdt.tokens() == before + key_nodes(sorted.take(j as int)),
            crate::writer::names_ok(key_nodes(sorted.take(j as int))),
            depth(fdt.tokens()) == depth(before),
            depth(before) > 0,
        decreases sorted.len() - j,
    {
        proof {
            reveal(build_outcome);
        }
        let ghost done = key_nodes(sorted.take(j as int));
        let ghost part = key_node(sorted[j as int]);
        proof {
            lemma_key_step(sorted, j as int);
            lemma_key_node_depth(sorted[j as int]);
            crate::writer::lemma_part(before, done, part, key_nodes(sorted.skip(j + 1)));
            crate::writer::lemma_depth_concat(before + done, part);
        }
        let r = create_key_node(fdt, keys[j]);
        if r.is_err() {
            proof {
                crate::writer::lemma_prefix_mid(before, done, part, key_nodes(sorted.skip(j + 1)), fdt.tokens());
            }
            return r;
        }
        proof {
            assert(fdt.tokens() =~= before + key_nodes(sorted.take(j + 1)));
            crate::writer::lemma_names_concat(done, part);
        }
        j = j + 1;
    }
    proof {
        assert(sorted.take(j as int) =~= sorted);
        crate::writer::lemma_depth_concat(before, full);
    }
    Ok(())
}

/// Appends the nodes of the devices in the order `key_le` gives them: the serial console
/// and the real-time clock by address, then the virtio transports by address. The order
/// depends on the devices' values alone, not on the order of the list.
#[verifier::rlimit(50)]
pub fn create_devices_node<T: DeviceInfoForFDT>(fdt: &mut FdtWriter, dev_info: &Vec<(DeviceType, T)>) -> (r: Result<
    (),
    crate::writer::Error,
>)
    requires
        old(fdt).valid(),
        depth(old(fdt).tokens()) > 0,
    ensures
        build_outcome(*old(fdt), *final(fdt), devices_tokens(dev_info@), false, r),
        depth(devices_tokens(dev_info@)) == 0,
{
    let ghost devs = dev_info@;
    let ghost keys_all = dev_keys(devs);
    proof {
        assert(keys_all.take(0) =~= Seq::<DeviceKey>::empty());
    }
    let mut keys: Vec<DeviceKey> = Vec::new();
    proof {
        assert(keys@ =~= sort_keys(keys_all.take(0)));
    }
    let mut i: usize = 0;
    while i < dev_info.len()
        invariant
            devs == dev_info@,
            keys_all == dev_keys(devs),
            i <= devs.len(),
            keys@ == sort_keys(keys_all.take(i as int)),
        decreases devs.len() - i,
    {
        let k = device_key(&dev_info[i].0, &dev_info[i].1);
        proof {
            let v = keys_all.take(i as int);
            assert(keys_all[i as int] == k);
            assert(keys_all.take(i + 1) =~= v.push(k));
            assert(v.push(k).drop_last() =~= v);
        }
        insert_key_sorted(&mut keys, k);
        i = i + 1;
    }
    proof {
        assert(keys_all.take(i as int) =~= keys_all);
    }
    create_key_nodes(fdt, &keys)
}

/// The root node's properties.
pub open spec fn root_props() -> Seq<Token> {
    seq![
        prop("compatible", zlit("linux,dummy-virt")),
        prop("#address-cells", be32(ADDRESS_CELLS)),
        prop("#size-cells", be32(SIZE_CELLS)),
        prop("interrupt-parent", be32(GIC_PHANDLE)),
    ]
}

/// The nodes of the devices, when there is a list of them.
pub open spec fn opt_devices_tokens<T: DeviceInfoForFDT>(device_info: Option<Seq<(DeviceType, T)>>) -> Seq<Token> {
    match device_info {
        Some(d) => devices_tokens(d),
        None => seq![],
    }
}

/// The children of the root node, in the order the guest kernel expects them.
pub open spec fn root_children<T: DeviceInfoForFDT>(
    mem_end: u64,
    vcpu_mpidr: Seq<u64>,
    cmdline: Seq<u8>,
    device_info: Option<Seq<(DeviceType, T)>>,
    gic: GicDevice,
) -> Seq<Token> {
    machine_nodes(mem_end, vcpu_mpidr, cmdline, gic) + platform_nodes(device_info)
}

/// The whole tree of a machine.
pub open spec fn fdt_tokens<T: DeviceInfoForFDT>(
    mem_end: u64,
    vcpu_mpidr: Seq<u64>,
    cmdline: Seq<u8>,
    device_info: Option<Seq<(DeviceType, T)>>,
    gic: GicDevice,
) -> Seq<Token> {
    root_head() + root_children(
        mem_end,
        vcpu_mpidr,
        cmdline,
        device_info,
        gic,
    ) + seq![Token::EndNode]
}

/// The list of devices, seen as a sequence.
pub open spec fn devices_view<T: DeviceInfoForFDT>(device_info: Option<&Vec<(DeviceType, T)>>) -> Option<Seq<(DeviceType, T)>> {
    match device_info {
        Some(v) => Some(v@),
        None => None,
    }
}

/// The children of the root node that describe the machine itself.
pub open spec fn machine_nodes(
    mem_end: u64,
    vcpu_mpidr: Seq<u64>,
    cmdline: Seq<u8>,
    gic: GicDevice,
) -> Seq<Token> {
    cpus_node(vcpu_mpidr) + memory_node(mem_end) + chosen_node(cmdline) + gic_node(
        gic.compatibility@,
        gic.properties@,
        gic.maint_irq,
    )
}

/// The children of the root node that describe the platform around the CPUs.
pub open spec fn platform_nodes<T: DeviceInfoForFDT>(device_info: Option<Seq<(DeviceType, T)>>) -> Seq<Token> {
    timer_node() + clock_node() + psci_node() + opt_devices_tokens(device_info)
}

/// Appends the CPUs, the memory, the command line and the interrupt controller.
#[verifier::rlimit(100)]
#[verifier::spinoff_prover]
fn create_machine_nodes(
    fdt: &mut FdtWriter,
    mem_end: u64,
    vcpu_mpidr: &Vec<u64>,
    cmdline: &[u8],
    gic_device: &GicDevice,
) -> (r: Result<(), crate::writer::Error>)
    requires
        old(fdt).valid(),
        depth(old(fdt).tokens()) > 0,
        mem_end >= DRAM_MEM_START,
    ensures
        build_outcome(
            *old(fdt),
            *final(fdt),
            machine_nodes(mem_end, vcpu_mpidr@, cmdline@, *gic_device),
            has_nul(cmdline@) || has_nul(gic_device.compatibility@),
            r,
        ),
        r is Ok ==> depth(machine_nodes(mem_end, vcpu_mpidr@, cmdline@, *gic_device)) == 0,
{
    let ghost w0 = *fdt;
    let ghost p1 = cpus_node(vcpu_mpidr@);
    let ghost p2 = memory_node(mem_end);
    let ghost p3 = chosen_node(cmdline@);
    let ghost p4 = gic_node(gic_device.compatibility@, gic_device.properties@, gic_device.maint_irq);
    let ghost b3 = has_nul(cmdline@);
    let ghost b4 = has_nul(gic_device.compatibility@);
    let r1 = create_cpu_nodes(fdt, vcpu_mpidr);
    if r1.is_err() {
        proof {
            crate::writer::lemma_stop(w0, *fdt, p1, p2 + p3 + p4, false, b3 || b4, r1);
            crate::writer::lemma_regroup(p1, p2, p3, p4);
        }
        return r1;
    }
    let ghost w1 = *fdt;
    proof {
        crate::writer::lemma_ok(w0, w1, p1, false, r1);
    }
    let r2 = create_memory_node(fdt, mem_end);
    proof {
        crate::writer::lemma_then(w0, w1, *fdt, p1, p2, false, false, r1, r2);
    }
    if r2.is_err() {
        proof {
            crate::writer::lemma_stop(w0, *fdt, p1 + p2, p3 + p4, false, b3 || b4, r2);
            crate::writer::lemma_regroup(p1, p2, p3, p4);
        }
        return r2;
    }
    let ghost w2 = *fdt;
    proof {
        crate::writer::lemma_ok(w0, w2, p1 + p2, false, r2);
        crate::writer::lemma_depth_concat(p1, p2);
    }
    let r3 = create_chosen_node(fdt, cmdline);
    proof {
        crate::writer::lemma_then(w0, w2, *fdt, p1 + p2, p3, false, b3, r2, r3);
    }
    if r3.is_err() {
        proof {
            crate::writer::lemma_stop(w0, *fdt, p1 + p2 + p3, p4, b3, b4, r3);
        }
        return r3;
    }
    let ghost w3 = *fdt;
    proof {
        crate::writer::lemma_ok(w0, w3, p1 + p2 + p3, b3, r3);
        crate::writer::lemma_depth_concat(p1, p2);
        crate::writer::lemma_depth_concat(p1 + p2, p3);
    }
    let r4 = create_gic_node(fdt, gic_device);
    proof {
        crate::writer::lemma_then(w0, w3, *fdt, p1 + p2 + p3, p4, b3, b4, r3, r4);
        crate::writer::lemma_depth_concat(p1, p2);
        crate::writer::lemma_depth_concat(p1 + p2, p3);
        crate::writer::lemma_depth_concat(p1 + p2 + p3, p4);
    }
    r4
}

/// Appends the timer, the clock, the power interface and the devices.
#[verifier::rlimit(100)]
#[verifier::spinoff_prover]
fn create_platform_nodes<T: DeviceInfoForFDT>(
    fdt: &mut FdtWriter,
    device_info: Option<&Vec<(DeviceType, T)>>,
) -> (r: Result<(), crate::writer::Error>)
    requires
        old(fdt).valid(),
        depth(old(fdt).tokens()) > 0,
    ensures
        build_outcome(*old(fdt), *final(fdt), platform_nodes(devices_view(device_info)), false, r),
        r is Ok ==> depth(platform_nodes(devices_view(device_info))) == 0,
{
    let ghost w0 = *fdt;
    let ghost p5 = timer_node();
    let ghost p6 = clock_node();
    let ghost p7 = psci_node();
    let ghost p8 = opt_devices_tokens(devices_view(device_info));
    proof {
        if device_info is None {
            assert(p8 =~= Seq::<Token>::empty());
        } else {
            lemma_key_nodes_depth(sort_keys(dev_keys(device_info->Some_0@)));
        }
        assert(depth(Seq::<Token>::empty()) == 0);
    }
    let r1 = create_timer_node(fdt);
    if r1.is_err() {
        proof {
            crate::writer::lemma_stop(w0, *fdt, p5, p6 + p7 + p8, false, false, r1);
            crate::writer::lemma_regroup(p5, p6, p7, p8);
        }
        return r1;
    }
    let ghost w1 = *fdt;
    proof {
        crate::writer::lemma_ok(w0, w1, p5, false, r1);
    }
    let r2 = create_clock_node(fdt);
    proof {
        crate::writer::lemma_then(w0, w1, *fdt, p5, p6, false, false, r1, r2);
    }
    if r2.is_err() {
        proof {
            crate::writer::lemma_stop(w0, *fdt, p5 + p6, p7 + p8, false, false, r2);
            crate::writer::lemma_regroup(p5, p6, p7, p8);
        }
        return r2;
    }
    let ghost w2 = *fdt;
    proof {
        crate::writer::lemma_ok(w0, w2, p5 + p6, false, r2);
        crate::writer::lemma_depth_concat(p5, p6);
    }
    let r3 = create_psci_node(fdt);
    proof {
        crate::writer::lemma_then(w0, w2, *fdt, p5 + p6, p7, false, false, r2, r3);
    }
    if r3.is_err() {
        proof {
            crate::writer::lemma_stop(w0, *fdt, p5 + p6 + p7, p8, false, false, r3);
        }
        return r3;
    }
    let ghost w3 = *fdt;
    proof {
        crate::writer::lemma_ok(w0, w3, p5 + p6 + p7, false, r3);
        crate::writer::lemma_depth_concat(p5, p6);
        crate::writer::lemma_depth_concat(p5 + p6, p7);
    }
    let r4 = match device_info {
        Some(v) => create_devices_node(fdt, v),
        None => {
            proof {
                reveal(build_outcome);
                assert(fdt.tokens() + p8 =~= fdt.tokens());
                assert(crate::writer::names_ok(p8));
            }
            Ok(())
        },
    };
    proof {
        crate::writer::lemma_then(w0, w3, *fdt, p5 + p6 + p7, p8, false, false, r3, r4);
        crate::writer::lemma_depth_concat(p5, p6);
        crate::writer::lemma_depth_concat(p5 + p6, p7);
        crate::writer::lemma_depth_concat(p5 + p6 + p7, p8);
    }
    r4
}

/// The root node's name and properties.
pub open spec fn root_head() -> Seq<Token> {
    seq![Token::BeginNode(lit(""))] + root_props()
}

/// Opens the root node and gives it its properties.
#[verifier::spinoff_prover]
fn create_root_head(fdt: &mut FdtWriter) -> (r: Result<(), crate::writer::Error>)
    requires
        old(fdt).valid(),
        old(fdt).tokens() == Seq::<Token>::empty(),
    ensures
        build_outcome(*old(fdt), *final(fdt), root_head(), false, r),
        depth(root_head()) == 1,
{
    let ghost w0 = *fdt;
    let ghost q0 = seq![Token::BeginNode(lit(""))];
    let ghost q1 = root_props();
    proof {
        reveal_strlit("");
        vstd::string::is_ascii_spec_bytes("");
        assert(vstd::string::is_ascii(""));
        assert(!has_nul(lit("")));
        crate::writer::lemma_only_props_depth(q1);
    }
    let r0 = crate::writer::append_begin_node(fdt, "".as_bytes());
    proof {
        crate::writer::lemma_single(w0, *fdt, Token::BeginNode(lit("")), false, r0, crate::writer::Error::AppendFDTNode);
        crate::writer::lemma_depth_concat(q0, q1);
    }
    if r0.is_err() {
        proof {
            crate::writer::lemma_stop(w0, *fdt, q0, q1, false, false, r0);
        }
        return r0;
    }
    let ghost w1 = *fdt;
    let mut props: Vec<Property> = Vec::new();
    props.push(prop_str("compatible", "linux,dummy-virt".as_bytes()));
    props.push(prop_u32("#address-cells", ADDRESS_CELLS));
    props.push(prop_u32("#size-cells", SIZE_CELLS));
    props.push(prop_u32("interrupt-parent", GIC_PHANDLE));
    proof {
        lemma_carries(props@, q1);
        crate::writer::lemma_ok(w0, w1, q0, false, r0);
    }
    let r1 = crate::writer::append_props(fdt, &props);
    proof {
        crate::writer::lemma_then(w0, w1, *fdt, q0, q1, false, false, r0, r1);
    }
    r1
}

/// Appends the whole tree to an empty writer.
#[verifier::rlimit(100)]
#[verifier::spinoff_prover]
fn create_tree<T: DeviceInfoForFDT>(
    fdt: &mut FdtWriter,
    mem_end: u64,
    vcpu_mpidr: &Vec<u64>,
    cmdline: &[u8],
    device_info: Option<&Vec<(DeviceType, T)>>,
    gic_device: &GicDevice,
) -> (r: Result<(), crate::writer::Error>)
    requires
        old(fdt).valid(),
        old(fdt).tokens() == Seq::<Token>::empty(),
        mem_end >= DRAM_MEM_START,
    ensures
        build_outcome(
            *old(fdt),
            *final(fdt),
            fdt_tokens(mem_end, vcpu_mpidr@, cmdline@, devices_view(device_info), *gic_device),
            has_nul(cmdline@) || has_nul(gic_device.compatibility@),
            r,
        ),
        r is Ok ==> depth(fdt_tokens(mem_end, vcpu_mpidr@, cmdline@, devices_view(device_info), *gic_device)) == 0,
{
    let ghost w0 = *fdt;
    let ghost q1 = root_head();
    let ghost q2 = machine_nodes(mem_end, vcpu_mpidr@, cmdline@, *gic_device);
    let ghost q3 = platform_nodes(devices_view(device_info));
    let ghost q4 = seq![Token::EndNode];
    let ghost bad = has_nul(cmdline@) || has_nul(gic_device.compatibility@);
    proof {
        crate::writer::lemma_regroup(seq![Token::BeginNode(lit(""))], root_props(), q2, q3);
    }
    let r1 = create_root_head(fdt);
    if r1.is_err() {
        proof {
            crate::writer::lemma_stop(w0, *fdt, q1, q2 + q3 + q4, false, bad, r1);
            crate::writer::lemma_regroup(q1, q2, q3, q4);
        }
        return r1;
    }
    let ghost w2 = *fdt;
    proof {
        crate::writer::lemma_ok(w0, w2, q1, false, r1);
    }
    let r2 = create_machine_nodes(fdt, mem_end, vcpu_mpidr, cmdline, gic_device);
    proof {
        crate::writer::lemma_then(w0, w2, *fdt, q1, q2, false, bad, r1, r2);
    }
    if r2.is_err() {
        proof {
            crate::writer::lemma_stop(w0, *fdt, q1 + q2, q3 + q4, bad, false, r2);
            crate::writer::lemma_regroup(q1, q2, q3, q4);
        }
        return r2;
    }
    let ghost w3 = *fdt;
    proof {
        crate::writer::lemma_ok(w0, w3, q1 + q2, bad, r2);
        crate::writer::lemma_depth_concat(q1, q2);
    }
    let r3 = create_platform_nodes(fdt, device_info);
    proof {
        crate::writer::lemma_then(w0, w3, *fdt, q1 + q2, q3, bad, false, r2, r3);
    }
    if r3.is_err() {
        proof {
            crate::writer::lemma_stop(w0, *fdt, q1 + q2 + q3, q4, bad, false, r3);
        }
        return r3;
    }
    let ghost w4 = *fdt;
    proof {
        crate::writer::lemma_ok(w0, w4, q1 + q2 + q3, bad, r3);
        crate::writer::lemma_depth_concat(q1 + q2, q3);
    }
    let r4 = crate::writer::append_end_node(fdt);
    proof {
        crate::writer::lemma_single(w4, *fdt, Token::EndNode, false, r4, crate::writer::Error::AppendFDTNode);
        crate::writer::lemma_then(w0, w4, *fdt, q1 + q2 + q3, q4, bad, false, r3, r4);
        crate::writer::lemma_depth_concat(q1 + q2 + q3, q4);
    }
    r4
}

/// Judges a write of the blob into guest memory: fewer bytes written than the blob holds
/// is an incomplete write.
pub fn check_fdt_write(written: usize, blob_len: usize) -> (r: Result<(), crate::writer::Error>)
    ensures
        r is Ok <==> written >= blob_len,
        r is Err ==> r == Err::<(), crate::writer::Error>(crate::writer::Error::IncompleteFDTMemoryWrite),
{
    if written < blob_len {
        return Err(crate::writer::Error::IncompleteFDTMemoryWrite);
    }
    Ok(())
}

/// Builds the flattened device tree of an aarch64 microVM: guest memory ends at `mem_end`,
/// there is one CPU for each affinity value, `cmdline` is the kernel command line, and
/// `device_info` lists the platform devices. The tree is packed into a blob of at most
/// `FDT_MAX_SIZE` bytes; it fails when the command line or the interrupt controller's
/// compatibility string holds a null byte, or when the blob would not fit.
#[verifier::spinoff_prover]
pub fn create_fdt<T: DeviceInfoForFDT>(
    mem_end: u64,
    vcpu_mpidr: &Vec<u64>,
    cmdline: &[u8],
    device_info: Option<&Vec<(DeviceType, T)>>,
    gic_device: &GicDevice,
) -> (r: Result<Vec<u8>, crate::writer::Error>)
    requires
        mem_end >= DRAM_MEM_START,
    ensures
        r is Ok <==> (!has_nul(cmdline@) && !has_nul(gic_device.compatibility@)
            && crate::writer::blob_size(
            fdt_tokens(mem_end, vcpu_mpidr@, cmdline@, devices_view(device_info), *gic_device),
        ) <= FDT_MAX_SIZE),
        match r {
            Ok(b) => b@ == crate::writer::blob(
                fdt_tokens(mem_end, vcpu_mpidr@, cmdline@, devices_view(device_info), *gic_device),
            ),
            Err(e) => crate::writer::blob_size(
                fdt_tokens(mem_end, vcpu_mpidr@, cmdline@, devices_view(device_info), *gic_device),
            ) <= FDT_MAX_SIZE ==> e == crate::writer::Error::CstringFDTTransform,
        },
{
    let ghost full = fdt_tokens(mem_end, vcpu_mpidr@, cmdline@, devices_view(device_info), *gic_device);
    proof {
        lemma_fdt_names(mem_end, vcpu_mpidr@, cmdline@, devices_view(device_info), *gic_device);
    }
    let mut fdt = match crate::writer::allocate_fdt(FDT_MAX_SIZE) {
        Ok(w) => w,
        Err(e) => return Err(e),
    };
    let ghost w0 = fdt;
    let r = create_tree(&mut fdt, mem_end, vcpu_mpidr, cmdline, device_info, gic_device);
    proof {
        reveal(build_outcome);
        assert(Seq::<Token>::empty() + full =~= full);
    }
    if let Err(e) = r {
        return Err(e);
    }
    crate::writer::finish_fdt(&fdt)
}

/// No name that the tree uses holds a null byte.
proof fn lemma_literal_names()
    ensures
        !has_nul(lit("cpus")),
        !has_nul(lit("memory")),
        !has_nul(lit("chosen")),
        !has_nul(lit("intc")),
        !has_nul(lit("timer")),
        !has_nul(lit("apb-pclk")),
        !has_nul(lit("psci")),
        !has_nul(lit("cpu@")),
        !has_nul(lit("virtio_mmio@")),
        !has_nul(lit("uart@")),
        !has_nul(lit("rtc@")),
        !has_nul(lit("compatible")),
        !has_nul(lit("#address-cells")),
        !has_nul(lit("#size-cells")),
        !has_nul(lit("interrupt-parent")),
        !has_nul(lit("device_type")),
        !has_nul(lit("enable-method")),
        !has_nul(lit("reg")),
        !has_nul(lit("bootargs")),
        !has_nul(lit("interrupt-controller")),
        !has_nul(lit("#interrupt-cells")),
        !has_nul(lit("phandle")),
        !has_nul(lit("ranges")),
        !has_nul(lit("interrupts")),
        !has_nul(lit("#clock-cells")),
        !has_nul(lit("clock-frequency")),
        !has_nul(lit("clock-output-names")),
        !has_nul(lit("always-on")),
        !has_nul(lit("method")),
        !has_nul(lit("clocks")),
        !has_nul(lit("clock-names")),
{
    reveal_strlit("cpus");
    vstd::string::is_ascii_spec_bytes("cpus");
    assert(vstd::string::is_ascii("cpus"));
    reveal_strlit("memory");
    vstd::string::is_ascii_spec_bytes("memory");
    assert(vstd::string::is_ascii("memory"));
    reveal_strlit("chosen");
    vstd::string::is_ascii_spec_bytes("chosen");
    assert(vstd::string::is_ascii("chosen"));
    reveal_strlit("intc");
    vstd::string::is_ascii_spec_bytes("intc");
    assert(vstd::string::is_ascii("intc"));
    reveal_strlit("timer");
    vstd::string::is_ascii_spec_bytes("timer");
    assert(vstd::string::is_ascii("timer"));
    reveal_strlit("apb-pclk");
    vstd::string::is_ascii_spec_bytes("apb-pclk");
    assert(vstd::string::is_ascii("apb-pclk"));
    reveal_strlit("psci");
    vstd::string::is_ascii_spec_bytes("psci");
    assert(vstd::string::is_ascii("psci"));
    reveal_strlit("cpu@");
    vstd::string::is_ascii_spec_bytes("cpu@");
    assert(vstd::string::is_ascii("cpu@"));
    reveal_strlit("virtio_mmio@");
    vstd::string::is_ascii_spec_bytes("virtio_mmio@");
    assert(vstd::string::is_ascii("virtio_mmio@"));
    reveal_strlit("uart@");
    vstd::string::is_ascii_spec_bytes("uart@");
    assert(vstd::string::is_ascii("uart@"));
    reveal_strlit("rtc@");
    vstd::string::is_ascii_spec_bytes("rtc@");
    assert(vstd::string::is_ascii("rtc@"));
    reveal_strlit("compatible");
    vstd::string::is_ascii_spec_bytes("compatible");
    assert(vstd::string::is_ascii("compatible"));
    reveal_strlit("#address-cells");
    vstd::string::is_ascii_spec_bytes("#address-cells");
    assert(vstd::string::is_ascii("#address-cells"));
    reveal_strlit("#size-cells");
    vstd::string::is_ascii_spec_bytes("#size-cells");
    assert(vstd::string::is_ascii("#size-cells"));
    reveal_strlit("interrupt-parent");
    vstd::string::is_ascii_spec_bytes("interrupt-parent");
    assert(vstd::string::is_ascii("interrupt-parent"));
    reveal_strlit("device_type");
    vstd::string::is_ascii_spec_bytes("device_type");
    assert(vstd::string::is_ascii("device_type"));
    reveal_strlit("enable-method");
    vstd::string::is_ascii_spec_bytes("enable-method");
    assert(vstd::string::is_ascii("enable-method"));
    reveal_strlit("reg");
    vstd::string::is_ascii_spec_bytes("reg");
    assert(vstd::string::is_ascii("reg"));
    reveal_strlit("bootargs");
    vstd::string::is_ascii_spec_bytes("bootargs");
    assert(vstd::string::is_ascii("bootargs"));
    reveal_strlit("interrupt-controller");
    vstd::string::is_ascii_spec_bytes("interrupt-controller");
    assert(vstd::string::is_ascii("interrupt-controller"));
    reveal_strlit("#interrupt-cells");
    vstd::string::is_ascii_spec_bytes("#interrupt-cells");
    assert(vstd::string::is_ascii("#interrupt-cells"));
    reveal_strlit("phandle");
    vstd::string::is_ascii_spec_bytes("phandle");
    assert(vstd::string::is_ascii("phandle"));
    reveal_strlit("ranges");
    vstd::string::is_ascii_spec_bytes("ranges");
    assert(vstd::string::is_ascii("ranges"));
    reveal_strlit("interrupts");
    vstd::string::is_ascii_spec_bytes("interrupts");
    assert(vstd::string::is_ascii("interrupts"));
    reveal_strlit("#clock-cells");
    vstd::string::is_ascii_spec_bytes("#clock-cells");
    assert(vstd::string::is_ascii("#clock-cells"));
    reveal_strlit("clock-frequency");
    vstd::string::is_ascii_spec_bytes("clock-frequency");
    assert(vstd::string::is_ascii("clock-frequency"));
    reveal_strlit("clock-output-names");
    vstd::string::is_ascii_spec_bytes("clock-output-names");
    assert(vstd::string::is_ascii("clock-output-names"));
    reveal_strlit("always-on");
    vstd::string::is_ascii_spec_bytes("always-on");
    assert(vstd::string::is_ascii("always-on"));
    reveal_strlit("method");
    vstd::string::is_ascii_spec_bytes("method");
    assert(vstd::string::is_ascii("method"));
    reveal_strlit("clocks");
    vstd::string::is_ascii_spec_bytes("clocks");
    assert(vstd::string::is_ascii("clocks"));
    reveal_strlit("clock-names");
    vstd::string::is_ascii_spec_bytes("clock-names");
    assert(vstd::string::is_ascii("clock-names"));
}

/// Two byte strings without a null byte make one.
proof fn lemma_no_nul_concat(a: Seq<u8>, b: Seq<u8>)
    requires
        !has_nul(a),
        !has_nul(b),
    ensures
        !has_nul(a + b),
{
    assert forall|i: int| 0 <= i < (a + b).len() implies (a + b)[i] != 0 by {
        if i >= a.len() {
            assert((a + b)[i] == b[i - a.len()]);
        } else {
            assert((a + b)[i] == a[i]);
        }
    }
}

/// A node without children whose names are valid.
proof fn lemma_leaf_names(name: Seq<u8>, props: Seq<Token>)
    requires
        !has_nul(name),
        crate::writer::names_ok(props),
    ensures
        crate::writer::names_ok(leaf(name, props)),
{
    let l = leaf(name, props);
    assert forall|i: int| 0 <= i < l.len() implies crate::writer::name_ok(#[trigger] l[i]) by {
        if 0 < i < l.len() - 1 {
            assert(l[i] == props[i - 1]);
        }
    }
}

/// The names of a virtio transport's node are valid.
proof fn lemma_virtio_node_names<T: DeviceInfoForFDT>(d: T)
    ensures
        crate::writer::names_ok(virtio_node(d)),
{
    lemma_literal_names();
    crate::bytes::lemma_hex_has_no_nul(d.spec_addr() as nat);
    lemma_no_nul_concat(lit("virtio_mmio@"), hex(d.spec_addr() as nat));
    let p = seq![
        prop("compatible", zlit("virtio,mmio")),
        prop("reg", dev_reg(d)),
        prop("interrupts", cells32(seq![GIC_FDT_IRQ_TYPE_SPI, d.spec_irq(), IRQ_TYPE_EDGE_RISING])),
        prop("interrupt-parent", be32(GIC_PHANDLE)),
    ];
    assert forall|i: int| 0 <= i < p.len() implies crate::writer::name_ok(#[trigger] p[i]) by {}
    lemma_leaf_names(lit("virtio_mmio@") + hex(d.spec_addr() as nat), p);
}

/// The names of the serial console's node are valid.
proof fn lemma_serial_node_names<T: DeviceInfoForFDT>(d: T)
    ensures
        crate::writer::names_ok(serial_node(d)),
{
    lemma_literal_names();
    crate::bytes::lemma_hex_has_no_nul(d.spec_addr() as nat);
    lemma_no_nul_concat(lit("uart@"), hex(d.spec_addr() as nat));
    let p = seq![
        prop("compatible", zlit("ns16550a")),
        prop("reg", dev_reg(d)),
        prop("clocks", be32(CLOCK_PHANDLE)),
        prop("clock-names", zlit("apb_pclk")),
        prop("interrupts", cells32(seq![GIC_FDT_IRQ_TYPE_SPI, d.spec_irq(), IRQ_TYPE_EDGE_RISING])),
    ];
    assert forall|i: int| 0 <= i < p.len() implies crate::writer::name_ok(#[trigger] p[i]) by {}
    lemma_leaf_names(lit("uart@") + hex(d.spec_addr() as nat), p);
}

/// The names of the real-time clock's node are valid.
proof fn lemma_rtc_node_names<T: DeviceInfoForFDT>(d: T)
    ensures
        crate::writer::names_ok(rtc_node(d)),
{
    lemma_literal_names();
    crate::bytes::lemma_hex_has_no_nul(d.spec_addr() as nat);
    lemma_no_nul_concat(lit("rtc@"), hex(d.spec_addr() as nat));
    let p = seq![
        prop("compatible", zlit("arm,pl031") + zlit("arm,primecell")),
        prop("reg", dev_reg(d)),
        prop("interrupts", cells32(seq![GIC_FDT_IRQ_TYPE_SPI, d.spec_irq(), IRQ_TYPE_LEVEL_HI])),
        prop("clocks", be32(CLOCK_PHANDLE)),
        prop("clock-names", zlit("apb_pclk")),
    ];
    assert forall|i: int| 0 <= i < p.len() implies crate::writer::name_ok(#[trigger] p[i]) by {}
    lemma_leaf_names(lit("rtc@") + hex(d.spec_addr() as nat), p);
}

/// The names of the device nodes are valid.
proof fn lemma_key_nodes_names(s: Seq<DeviceKey>)
    ensures
        crate::writer::names_ok(key_nodes(s)),
    decreases s.len(),
{
    if s.len() > 0 {
        lemma_key_nodes_names(s.drop_last());
        let k = s.last();
        lemma_serial_node_names(key_info(k));
        lemma_rtc_node_names(key_info(k));
        lemma_virtio_node_names(key_info(k));
        crate::writer::lemma_names_concat(key_nodes(s.drop_last()), key_node(k));
    } else {
        assert(crate::writer::names_ok(Seq::<Token>::empty()));
    }
}

/// The names of the CPU nodes are valid.
proof fn lemma_cpu_names(m: Seq<u64>, lo: nat, hi: nat)
    requires
        hi <= m.len(),
    ensures
        crate::writer::names_ok(cpu_range(m, lo, hi)),
    decreases hi,
{
    if hi > lo {
        let i = (hi - 1) as nat;
        lemma_cpu_names(m, lo, i);
        lemma_literal_names();
        crate::bytes::lemma_hex_has_no_nul(i);
        lemma_no_nul_concat(lit("cpu@"), hex(i));
        let ps = cpu_props(m[i as int], m.len());
        assert(crate::writer::names_ok(ps)) by {
            assert forall|k: int| 0 <= k < ps.len() implies crate::writer::name_ok(#[trigger] ps[k]) by {}
        }
        lemma_leaf_names(lit("cpu@") + hex(i), ps);
        crate::writer::lemma_names_concat(cpu_range(m, lo, i), cpu_node(m, i));
    } else {
        assert(crate::writer::names_ok(Seq::<Token>::empty()));
    }
}


/// The names of root head are valid.
proof fn lemma_root_head_names()
    ensures
        crate::writer::names_ok(root_head()),
{
    lemma_literal_names();
    reveal_strlit("");
    vstd::string::is_ascii_spec_bytes("");
    assert(vstd::string::is_ascii(""));
    let t = root_head();
    assert forall|i: int| 0 <= i < t.len() implies crate::writer::name_ok(#[trigger] t[i]) by {}
}

/// The names of cpus head are valid.
proof fn lemma_cpus_head_names()
    ensures
        crate::writer::names_ok(cpus_head()),
{
    lemma_literal_names();
    let t = cpus_head();
    assert forall|i: int| 0 <= i < t.len() implies crate::writer::name_ok(#[trigger] t[i]) by {}
}

/// The names of memory node are valid.
proof fn lemma_memory_names(mem_end: u64)
    ensures
        crate::writer::names_ok(memory_node(mem_end)),
{
    lemma_literal_names();
    let t = memory_node(mem_end);
    assert forall|i: int| 0 <= i < t.len() implies crate::writer::name_ok(#[trigger] t[i]) by {}
}

/// The names of chosen node are valid.
proof fn lemma_chosen_names(cmdline: Seq<u8>)
    ensures
        crate::writer::names_ok(chosen_node(cmdline)),
{
    lemma_literal_names();
    let t = chosen_node(cmdline);
    assert forall|i: int| 0 <= i < t.len() implies crate::writer::name_ok(#[trigger] t[i]) by {}
}

/// The names of gic node are valid.
proof fn lemma_gic_names(compatibility: Seq<u8>, properties: Seq<u64>, maint_irq: u32)
    ensures
        crate::writer::names_ok(gic_node(compatibility, properties, maint_irq)),
{
    lemma_literal_names();
    let t = gic_node(compatibility, properties, maint_irq);
    assert forall|i: int| 0 <= i < t.len() implies crate::writer::name_ok(#[trigger] t[i]) by {}
}

/// The names of timer node are valid.
proof fn lemma_timer_names()
    ensures
        crate::writer::names_ok(timer_node()),
{
    lemma_literal_names();
    let t = timer_node();
    assert forall|i: int| 0 <= i < t.len() implies crate::writer::name_ok(#[trigger] t[i]) by {}
}

/// The names of clock node are valid.
proof fn lemma_clock_names()
    ensures
        crate::writer::names_ok(clock_node()),
{
    lemma_literal_names();
    let t = clock_node();
    assert forall|i: int| 0 <= i < t.len() implies crate::writer::name_ok(#[trigger] t[i]) by {}
}

/// The names of psci node are valid.
proof fn lemma_psci_names()
    ensures
        crate::writer::names_ok(psci_node()),
{
    lemma_literal_names();
    let t = psci_node();
    assert forall|i: int| 0 <= i < t.len() implies crate::writer::name_ok(#[trigger] t[i]) by {}
}

/// Every name in the tree of a machine is valid; only the command line and the interrupt
/// controller's compatibility string can hold a null byte.
pub proof fn lemma_fdt_names<T: DeviceInfoForFDT>(
    mem_end: u64,
    vcpu_mpidr: Seq<u64>,
    cmdline: Seq<u8>,
    device_info: Option<Seq<(DeviceType, T)>>,
    gic: GicDevice,
)
    ensures
        crate::writer::names_ok(fdt_tokens(mem_end, vcpu_mpidr, cmdline, device_info, gic)),
{
    lemma_machine_names(mem_end, vcpu_mpidr, cmdline, gic);
    lemma_platform_names(device_info);
    lemma_root_head_names();
    let e = seq![Token::EndNode];
    assert forall|i: int| 0 <= i < e.len() implies crate::writer::name_ok(#[trigger] e[i]) by {}
    let mn = machine_nodes(mem_end, vcpu_mpidr, cmdline, gic);
    let pn = platform_nodes(device_info);
    crate::writer::lemma_names_concat(mn, pn);
    crate::writer::lemma_names_concat(root_head(), mn + pn);
    crate::writer::lemma_names_concat(root_head() + (mn + pn), e);
}

/// The names of the nodes that describe the machine itself are valid.
proof fn lemma_machine_names(mem_end: u64, vcpu_mpidr: Seq<u64>, cmdline: Seq<u8>, gic: GicDevice)
    ensures
        crate::writer::names_ok(machine_nodes(mem_end, vcpu_mpidr, cmdline, gic)),
{
    let e = seq![Token::EndNode];
    assert forall|i: int| 0 <= i < e.len() implies crate::writer::name_ok(#[trigger] e[i]) by {}
    lemma_cpus_head_names();
    lemma_cpu_names(vcpu_mpidr, 0, vcpu_mpidr.len());
    crate::writer::lemma_names_concat(cpus_head(), cpu_range(vcpu_mpidr, 0, vcpu_mpidr.len()));
    crate::writer::lemma_names_concat(cpus_head() + cpu_range(vcpu_mpidr, 0, vcpu_mpidr.len()), e);
    lemma_memory_names(mem_end);
    lemma_chosen_names(cmdline);
    lemma_gic_names(gic.compatibility@, gic.properties@, gic.maint_irq);
    let p1 = cpus_node(vcpu_mpidr);
    let pm = memory_node(mem_end);
    let pc = chosen_node(cmdline);
    crate::writer::lemma_names_concat(p1, pm);
    crate::writer::lemma_names_concat(p1 + pm, pc);
    crate::writer::lemma_names_concat(p1 + pm + pc, gic_node(gic.compatibility@, gic.properties@, gic.maint_irq));
}

/// The names of the nodes around the CPUs are valid.
proof fn lemma_platform_names<T: DeviceInfoForFDT>(device_info: Option<Seq<(DeviceType, T)>>)
    ensures
        crate::writer::names_ok(platform_nodes(device_info)),
{
    lemma_timer_names();
    lemma_clock_names();
    lemma_psci_names();
    match device_info {
        Some(d) => {
            lemma_key_nodes_names(sort_keys(dev_keys(d)));
        },
        None => {
            assert(crate::writer::names_ok(Seq::<Token>::empty()));
        },
    }
    crate::writer::lemma_names_concat(timer_node(), clock_node());
    crate::writer::lemma_names_concat(timer_node() + clock_node(), psci_node());
    crate::writer::lemma_names_concat(timer_node() + clock_node() + psci_node(), opt_devices_tokens(device_info));
}

} // verus!
