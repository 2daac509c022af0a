use vm_fdt::{
    allocate_fdt, append_begin_node, append_end_node, append_property, append_property_null,
    append_property_string, append_property_u32, append_property_u64, create_fdt, finish_fdt,
    generate_prop32, generate_prop64, to_be32, to_be64, DeviceType, Error, GicDevice,
    MmioDeviceInfo, DRAM_MEM_START, FDT_MAX_SIZE,
};

const LEN: u64 = 4096;

#[derive(Debug, PartialEq, Clone)]
enum Item {
    Begin(String),
    Prop(String, Vec<u8>),
    End,
}

fn be32_at(b: &[u8], pos: usize) -> u32 {
    u32::from_be_bytes([b[pos], b[pos + 1], b[pos + 2], b[pos + 3]])
}

fn cstr_at(b: &[u8], pos: usize) -> String {
    let end = pos + b[pos..].iter().position(|&c| c == 0).unwrap();
    String::from_utf8(b[pos..end].to_vec()).unwrap()
}

fn align4(n: usize) -> usize {
    (n + 3) & !3
}

/// An independent reader of the blob format: checks the header and returns the tree.
fn read_blob(b: &[u8]) -> Vec<Item> {
    assert_eq!(be32_at(b, 0), 0xd00d_feed);
    assert_eq!(be32_at(b, 4) as usize, b.len());
    let off_struct = be32_at(b, 8) as usize;
    let off_strings = be32_at(b, 12) as usize;
    let off_rsv = be32_at(b, 16) as usize;
    assert_eq!(be32_at(b, 20), 17);
    assert_eq!(be32_at(b, 24), 16);
    assert_eq!(be32_at(b, 28), 0);
    let size_strings = be32_at(b, 32) as usize;
    let size_struct = be32_at(b, 36) as usize;
    assert_eq!(off_strings + size_strings, b.len());
    assert_eq!(off_struct + size_struct, off_strings);
    assert!(b[off_rsv..off_rsv + 16].iter().all(|&x| x == 0));
    let mut items = Vec::new();
    let mut pos = off_struct;
    let mut depth = 0i32;
    loop {
        let tok = be32_at(b, pos);
        pos += 4;
        match tok {
            1 => {
                let name = cstr_at(b, pos);
                pos = align4(pos + name.len() + 1);
                depth += 1;
                items.push(Item::Begin(name));
            }
            2 => {
                depth -= 1;
                assert!(depth >= 0);
                items.push(Item::End);
            }
            3 => {
                let len = be32_at(b, pos) as usize;
                let nameoff = be32_at(b, pos + 4) as usize;
                pos += 8;
                let value = b[pos..pos + len].to_vec();
                pos = align4(pos + len);
                items.push(Item::Prop(cstr_at(b, off_strings + nameoff), value));
            }
            9 => break,
            other => panic!("unexpected token {}", other),
        }
    }
    assert_eq!(depth, 0);
    assert_eq!(pos, off_strings);
    items
}

fn node_names(items: &[Item]) -> Vec<String> {
    items
        .iter()
        .filter_map(|i| match i {
            Item::Begin(n) => Some(n.clone()),
            _ => None,
        })
        .collect()
}

/// The properties of the first node with this name.
fn props_of(items: &[Item], node: &str) -> Vec<(String, Vec<u8>)> {
    let start = items.iter().position(|i| *i == Item::Begin(node.to_string())).unwrap();
    let mut out = Vec::new();
    for i in &items[start + 1..] {
        match i {
            Item::Prop(n, v) => out.push((n.clone(), v.clone())),
            _ => break,
        }
    }
    out
}

fn gic_v3() -> GicDevice {
    GicDevice {
        compatibility: b"arm,gic-v3".to_vec(),
        properties: vec![0x3FFF_0000, 0x1_0000, 0x3FFD_0000, 0x2_0000],
        maint_irq: 9,
    }
}

fn mem_end() -> u64 {
    DRAM_MEM_START + 0x2000_0000
}

fn no_devices() -> Option<&'static Vec<(DeviceType, MmioDeviceInfo)>> {
    None
}

#[test]
fn test_create_fdt_with_devices() {
    let dev_info: Vec<(DeviceType, MmioDeviceInfo)> = vec![
        (DeviceType::Serial, MmioDeviceInfo { addr: 0x00, irq: 1, length: LEN }),
        (DeviceType::Virtio(1), MmioDeviceInfo { addr: 0x00 + LEN, irq: 2, length: LEN }),
        (DeviceType::RTC, MmioDeviceInfo { addr: 0x00 + 2 * LEN, irq: 3, length: LEN }),
    ];
    let r = create_fdt(mem_end(), &vec![0], "console=tty0".as_bytes(), Some(&dev_info), &gic_v3());
    assert!(r.is_ok());
    let items = read_blob(&r.unwrap());
    let names = node_names(&items);
    assert!(names.contains(&"uart@0".to_string()));
    assert!(names.contains(&"virtio_mmio@1000".to_string()));
    assert!(names.contains(&"rtc@2000".to_string()));
}

#[test]
fn test_create_fdt() {
    let dtb = create_fdt(mem_end(), &vec![0], "console=tty0".as_bytes(), no_devices(), &gic_v3())
        .unwrap();
    let items = read_blob(&dtb);
    assert_eq!(items.first(), Some(&Item::Begin(String::new())));
    assert_eq!(items.last(), Some(&Item::End));
}

#[test]
fn single_cpu_scenario_node_order() {
    let dtb = create_fdt(mem_end(), &vec![0], "console=tty0".as_bytes(), no_devices(), &gic_v3())
        .unwrap();
    let items = read_blob(&dtb);
    assert_eq!(
        node_names(&items),
        vec!["", "cpus", "cpu@0", "memory", "chosen", "intc", "timer", "apb-pclk", "psci"]
    );
    let chosen = props_of(&items, "chosen");
    assert_eq!(chosen, vec![("bootargs".to_string(), b"console=tty0\0".to_vec())]);
    let intc = props_of(&items, "intc");
    assert_eq!(intc[0], ("compatible".to_string(), b"arm,gic-v3\0".to_vec()));
    let memory = props_of(&items, "memory");
    let mut reg = Vec::new();
    reg.extend_from_slice(&0x8000_0000u64.to_be_bytes());
    reg.extend_from_slice(&0x2000_0000u64.to_be_bytes());
    assert_eq!(memory[1], ("reg".to_string(), reg));
}

#[test]
fn virtio_nodes_sorted_by_address() {
    let dev_info: Vec<(DeviceType, MmioDeviceInfo)> = vec![
        (DeviceType::Virtio(2), MmioDeviceInfo { addr: 0x2000, irq: 6, length: LEN }),
        (DeviceType::Virtio(2), MmioDeviceInfo { addr: 0x1000, irq: 5, length: LEN }),
    ];
    let dtb = create_fdt(mem_end(), &vec![0], "console=tty0".as_bytes(), Some(&dev_info), &gic_v3())
        .unwrap();
    let names = node_names(&read_blob(&dtb));
    let a = names.iter().position(|n| n == "virtio_mmio@1000").unwrap();
    let b = names.iter().position(|n| n == "virtio_mmio@2000").unwrap();
    assert!(a < b);
}

#[test]
fn virtio_after_other_devices_in_ascending_order() {
    let dev_info: Vec<(DeviceType, MmioDeviceInfo)> = vec![
        (DeviceType::Virtio(1), MmioDeviceInfo { addr: 0x5000, irq: 7, length: LEN }),
        (DeviceType::Virtio(1), MmioDeviceInfo { addr: 0x3000, irq: 8, length: LEN }),
        (DeviceType::RTC, MmioDeviceInfo { addr: 0x9000, irq: 3, length: LEN }),
        (DeviceType::Virtio(1), MmioDeviceInfo { addr: 0x4000, irq: 9, length: LEN }),
    ];
    let dtb = create_fdt(mem_end(), &vec![0], b"", Some(&dev_info), &gic_v3()).unwrap();
    let names = node_names(&read_blob(&dtb));
    let tail: Vec<&str> = names[names.len() - 4..].iter().map(|s| s.as_str()).collect();
    assert_eq!(tail, vec!["rtc@9000", "virtio_mmio@3000", "virtio_mmio@4000", "virtio_mmio@5000"]);
}

#[test]
fn affinity_masked_to_low_bits() {
    let dtb = create_fdt(
        mem_end(),
        &vec![0xFFFF_FFFF_FFFF_FFFF],
        b"",
        no_devices(),
        &gic_v3(),
    )
    .unwrap();
    let items = read_blob(&dtb);
    let cpu = props_of(&items, "cpu@0");
    let reg = cpu.iter().find(|(n, _)| n == "reg").unwrap();
    assert_eq!(reg.1, 0x7F_FFFFu64.to_be_bytes().to_vec());
}

#[test]
fn enable_method_only_with_several_cpus() {
    let one = read_blob(&create_fdt(mem_end(), &vec![0], b"", no_devices(), &gic_v3()).unwrap());
    assert!(props_of(&one, "cpu@0").iter().all(|(n, _)| n != "enable-method"));
    let two = read_blob(&create_fdt(mem_end(), &vec![0, 1], b"", no_devices(), &gic_v3()).unwrap());
    for cpu in ["cpu@0", "cpu@1"] {
        let p = props_of(&two, cpu);
        assert!(p.iter().any(|(n, v)| n == "enable-method" && v == b"psci\0"));
    }
}

#[test]
fn cpu_names_are_hexadecimal() {
    let mpidrs: Vec<u64> = (0..17).collect();
    let items = read_blob(&create_fdt(mem_end(), &mpidrs, b"", no_devices(), &gic_v3()).unwrap());
    let names = node_names(&items);
    assert!(names.contains(&"cpu@a".to_string()));
    assert!(names.contains(&"cpu@10".to_string()));
}

#[test]
fn identical_inputs_give_identical_blobs() {
    let dev_info: Vec<(DeviceType, MmioDeviceInfo)> = vec![
        (DeviceType::Serial, MmioDeviceInfo { addr: 0x40, irq: 1, length: LEN }),
        (DeviceType::Virtio(3), MmioDeviceInfo { addr: 0x8000, irq: 2, length: LEN }),
    ];
    let a = create_fdt(mem_end(), &vec![0, 1], b"quiet", Some(&dev_info), &gic_v3()).unwrap();
    let b = create_fdt(mem_end(), &vec![0, 1], b"quiet", Some(&dev_info), &gic_v3()).unwrap();
    assert_eq!(a, b);
}

#[test]
fn nul_in_command_line_is_rejected() {
    let r = create_fdt(mem_end(), &vec![0], b"console\0tty0", no_devices(), &gic_v3());
    assert_eq!(r, Err(Error::CstringFDTTransform));
}

#[test]
fn nul_in_gic_compatibility_is_rejected() {
    let mut gic = gic_v3();
    gic.compatibility = b"arm\0gic".to_vec();
    let r = create_fdt(mem_end(), &vec![0], b"", no_devices(), &gic);
    assert_eq!(r, Err(Error::CstringFDTTransform));
}

#[test]
fn too_many_cpus_overflow_the_buffer() {
    let mpidrs: Vec<u64> = (0..40000).collect();
    let r = create_fdt(mem_end(), &mpidrs, b"", no_devices(), &gic_v3());
    assert!(matches!(r, Err(Error::AppendFDTNode) | Err(Error::AppendFDTProperty)));
}

#[test]
fn writer_rejects_names_with_nul() {
    let mut w = allocate_fdt(FDT_MAX_SIZE).unwrap();
    assert_eq!(append_begin_node(&mut w, b"bad\0name"), Err(Error::CstringFDTTransform));
    assert_eq!(append_begin_node(&mut w, b""), Ok(()));
    assert_eq!(append_property(&mut w, b"x\0", b"v"), Err(Error::CstringFDTTransform));
    assert_eq!(append_property_string(&mut w, b"x", b"v\0w"), Err(Error::CstringFDTTransform));
    assert_eq!(append_end_node(&mut w), Ok(()));
    let blob = finish_fdt(&w).unwrap();
    assert_eq!(read_blob(&blob), vec![Item::Begin(String::new()), Item::End]);
}

#[test]
fn writer_structure_errors() {
    let mut w = allocate_fdt(FDT_MAX_SIZE).unwrap();
    assert_eq!(append_end_node(&mut w), Err(Error::AppendFDTNode));
    assert_eq!(append_property_u32(&mut w, b"a", 1), Err(Error::AppendFDTProperty));
    assert_eq!(finish_fdt(&w), Err(Error::FinishFDTReserveMap));
    append_begin_node(&mut w, b"").unwrap();
    assert_eq!(finish_fdt(&w), Err(Error::FinishFDTReserveMap));
    append_end_node(&mut w).unwrap();
    assert_eq!(append_begin_node(&mut w, b"second-root"), Err(Error::AppendFDTNode));
}

#[test]
fn allocate_checks_size() {
    assert_eq!(allocate_fdt(10).err(), Some(Error::CreateFDT));
    assert!(allocate_fdt(60).is_ok());
}

#[test]
fn small_buffer_rejects_growth() {
    let mut w = allocate_fdt(72).unwrap();
    append_begin_node(&mut w, b"").unwrap();
    assert_eq!(append_property_null(&mut w, b"p"), Err(Error::AppendFDTProperty));
    assert_eq!(append_begin_node(&mut w, b"c"), Err(Error::AppendFDTNode));
    append_end_node(&mut w).unwrap();
    let blob = finish_fdt(&w).unwrap();
    assert_eq!(blob.len(), 72);
}

#[test]
fn property_names_are_deduplicated() {
    let mut w = allocate_fdt(FDT_MAX_SIZE).unwrap();
    append_begin_node(&mut w, b"").unwrap();
    append_property_u32(&mut w, b"reg", 1).unwrap();
    append_begin_node(&mut w, b"child").unwrap();
    append_property_u64(&mut w, b"reg", 2).unwrap();
    append_property_null(&mut w, b"flag").unwrap();
    append_end_node(&mut w).unwrap();
    append_end_node(&mut w).unwrap();
    let blob = finish_fdt(&w).unwrap();
    let size_strings = be32_at(&blob, 32);
    assert_eq!(size_strings, 4 + 5);
    assert_eq!(
        read_blob(&blob),
        vec![
            Item::Begin(String::new()),
            Item::Prop("reg".to_string(), vec![0, 0, 0, 1]),
            Item::Begin("child".to_string()),
            Item::Prop("reg".to_string(), vec![0, 0, 0, 0, 0, 0, 0, 2]),
            Item::Prop("flag".to_string(), vec![]),
            Item::End,
            Item::End,
        ]
    );
}

#[test]
fn big_endian_cells() {
    assert_eq!(to_be32(0x0102_0304), [1, 2, 3, 4]);
    assert_eq!(to_be64(0x0102_0304_0506_0708), [1, 2, 3, 4, 5, 6, 7, 8]);
    assert_eq!(generate_prop32(&[1, 0x0A0B_0C0D]), vec![0, 0, 0, 1, 10, 11, 12, 13]);
    assert_eq!(
        generate_prop64(&[0x8000_0000, 1]),
        vec![0, 0, 0, 0, 0x80, 0, 0, 0, 0, 0, 0, 0, 0, 0, 0, 1]
    );
}

#[test]
fn exact_blob_for_empty_root() {
    let mut w = allocate_fdt(FDT_MAX_SIZE).unwrap();
    append_begin_node(&mut w, b"").unwrap();
    append_end_node(&mut w).unwrap();
    let blob = finish_fdt(&w).unwrap();
    let mut expected: Vec<u8> = Vec::new();
    for v in [0xd00d_feedu32, 72, 56, 72, 40, 17, 16, 0, 0, 16] {
        expected.extend_from_slice(&v.to_be_bytes());
    }
    expected.extend_from_slice(&[0u8; 16]);
    expected.extend_from_slice(&[0, 0, 0, 1, 0, 0, 0, 0, 0, 0, 0, 2, 0, 0, 0, 9]);
    assert_eq!(blob, expected);
}

#[test]
fn short_write_is_incomplete() {
    assert_eq!(vm_fdt::check_fdt_write(10, 72), Err(Error::IncompleteFDTMemoryWrite));
    assert_eq!(vm_fdt::check_fdt_write(72, 72), Ok(()));
}

#[test]
fn device_order_does_not_depend_on_the_list() {
    let a: Vec<(DeviceType, MmioDeviceInfo)> = vec![
        (DeviceType::Serial, MmioDeviceInfo { addr: 0x0, irq: 1, length: LEN }),
        (DeviceType::RTC, MmioDeviceInfo { addr: 0x2000, irq: 3, length: LEN }),
        (DeviceType::Virtio(1), MmioDeviceInfo { addr: 0x1000, irq: 2, length: LEN }),
    ];
    let b: Vec<(DeviceType, MmioDeviceInfo)> = vec![a[2], a[1], a[0]];
    let blob_a = create_fdt(mem_end(), &vec![0], b"", Some(&a), &gic_v3()).unwrap();
    let blob_b = create_fdt(mem_end(), &vec![0], b"", Some(&b), &gic_v3()).unwrap();
    assert_eq!(blob_a, blob_b);
    let names = node_names(&read_blob(&blob_a));
    let tail: Vec<&str> = names[names.len() - 3..].iter().map(|s| s.as_str()).collect();
    assert_eq!(tail, vec!["uart@0", "rtc@2000", "virtio_mmio@1000"]);
}

#[test]
fn other_devices_sorted_by_address() {
    let devs: Vec<(DeviceType, MmioDeviceInfo)> = vec![
        (DeviceType::RTC, MmioDeviceInfo { addr: 0x3000, irq: 3, length: LEN }),
        (DeviceType::Serial, MmioDeviceInfo { addr: 0x5000, irq: 1, length: LEN }),
    ];
    let names = node_names(&read_blob(
        &create_fdt(mem_end(), &vec![0], b"", Some(&devs), &gic_v3()).unwrap(),
    ));
    let tail: Vec<&str> = names[names.len() - 2..].iter().map(|s| s.as_str()).collect();
    assert_eq!(tail, vec!["rtc@3000", "uart@5000"]);
}
