//! Physical disks: model, bus and size from what the drive's descriptor says.

use crate::metrics::{cpu, smbios};
use crate::number::Double;
use crate::text;
use vstd::prelude::*;
use vstd::string::StringExecFns;

verus! {

#[derive(Clone, Debug)]
pub struct PhysicalDisk {
    /// Number of the drive; the leading number of its counter instances.
    pub index: u32,
    pub model: String,
    pub bus: &'static str,
    pub size: u64,
    pub read_bps: Double,
    pub write_bps: Double,
    /// Counted in the widget and the chart.
    pub enabled: bool,
}

pub open spec fn bus_text(bus: u32) -> Seq<char> {
    if bus == 1 {
        "SCSI"@
    } else if bus == 2 {
        "ATAPI"@
    } else if bus == 3 {
        "ATA"@
    } else if bus == 4 {
        "IEEE 1394"@
    } else if bus == 5 {
        "SSA"@
    } else if bus == 6 {
        "Fibre"@
    } else if bus == 7 {
        "USB"@
    } else if bus == 8 {
        "RAID"@
    } else if bus == 9 {
        "iSCSI"@
    } else if bus == 10 {
        "SAS"@
    } else if bus == 11 {
        "SATA"@
    } else if bus == 12 {
        "SD"@
    } else if bus == 13 {
        "MMC"@
    } else if bus == 14 {
        "Virtual"@
    } else if bus == 15 {
        "FileBackedVirtual"@
    } else if bus == 16 {
        "Spaces"@
    } else if bus == 17 {
        "NVMe"@
    } else if bus == 18 {
        "SCM"@
    } else if bus == 19 {
        "UFS"@
    } else {
        ""@
    }
}

/// The name of a bus by its number.
pub fn bus_name(bus: u32) -> (r: &'static str)
    ensures
        r@ == bus_text(bus),
{
    match bus {
        1 => "SCSI",
        2 => "ATAPI",
        3 => "ATA",
        4 => "IEEE 1394",
        5 => "SSA",
        6 => "Fibre",
        7 => "USB",
        8 => "RAID",
        9 => "iSCSI",
        10 => "SAS",
        11 => "SATA",
        12 => "SD",
        13 => "MMC",
        14 => "Virtual",
        15 => "FileBackedVirtual",
        16 => "Spaces",
        17 => "NVMe",
        18 => "SCM",
        19 => "UFS",
        _ => "",
    }
}

/// The bytes of a string in a descriptor: from its offset up to the next zero
/// or the end; none where the offset is zero or behind the end.
pub open spec fn cstr_bytes(buf: Seq<u8>, off: nat) -> Seq<u8> {
    if off == 0 || off >= buf.len() {
        Seq::empty()
    } else {
        buf.subrange(off as int, smbios::zero_from(buf, off as int))
    }
}

/// A string of a descriptor: decoded, without white space at the ends.
pub fn cstr_at(buf: &[u8], off: u32) -> (r: String)
    ensures
        r@ == smbios::text_of(cstr_bytes(buf@, off as nat)),
{
    if off == 0 || off as u64 >= buf.len() as u64 {
        return smbios::read_text(&[]);
    }
    let start: usize = off as usize;
    proof {
        smbios::lemma_zero_from(buf@, off as int);
    }
    let end: usize = smbios::find_zero(buf, start);
    let b: Vec<u8> = smbios::bytes_of(buf, start, end);
    smbios::read_text(b.as_slice())
}

/// The model of a drive: its product, behind its vendor where there is one
/// that the product does not begin with; the drive's number where it has no
/// name at all.
pub open spec fn model_text(index: nat, vendor: Seq<char>, product: Seq<char>) -> Seq<char> {
    if vendor.len() == 0 || text::occurs_at(product, vendor, 0) {
        if product.len() == 0 {
            "Disk "@ + text::decimal(index)
        } else {
            product
        }
    } else {
        vendor + " "@ + product
    }
}

/// A mounted image is no hardware.
pub open spec fn is_virtual(bus: u32) -> bool {
    bus == 14 || bus == 15
}

/// `d` is the drive with these names, bus and size.
pub open spec fn is_disk(
    index: u32,
    vendor: Seq<char>,
    product: Seq<char>,
    bus: u32,
    size: i64,
    d: PhysicalDisk,
) -> bool {
    &&& d.index == index
    &&& d.model@ == model_text(index as nat, vendor, product)
    &&& d.bus@ == bus_text(bus)
    &&& d.size == (if size > 0 {
        size as int
    } else {
        0
    })
    &&& d.read_bps == Double::zero()
    &&& d.write_bps == Double::zero()
    &&& d.enabled
}

/// A physical drive from its names, bus and size; `None` for a mounted image.
pub fn describe(index: u32, vendor: String, product: String, bus: u32, size: i64) -> (r: Option<
    PhysicalDisk,
>)
    ensures
        r.is_none() == is_virtual(bus),
        r matches Some(d) ==> is_disk(index, vendor@, product@, bus, size, d),
{
    if bus == 14 || bus == 15 {
        return None;
    }
    let no_vendor: bool = text::chars_of(vendor.as_str()).len() == 0;
    let no_product: bool = text::chars_of(product.as_str()).len() == 0;
    let model: String = if no_vendor || text::starts_with(product.as_str(), vendor.as_str()) {
        if no_product {
            let mut m: String = "Disk ".to_string();
            m.append(text::number(index as u64).as_str());
            m
        } else {
            product
        }
    } else {
        let mut m: String = vendor;
        m.append(" ");
        m.append(product.as_str());
        m
    };
    Some(
        PhysicalDisk {
            index,
            model,
            bus: bus_name(bus),
            size: if size > 0 {
                size as u64
            } else {
                0
            },
            read_bps: Double::zero(),
            write_bps: Double::zero(),
            enabled: true,
        },
    )
}

/// Length of a storage device descriptor without the strings behind it.
pub const DESCRIPTOR_LEN: usize = 40;

/// Where the descriptor keeps the offset of the vendor's name.
pub const VENDOR_AT: usize = 12;

/// Where the descriptor keeps the offset of the product's name.
pub const PRODUCT_AT: usize = 16;

/// Where the descriptor keeps the bus.
pub const BUS_AT: usize = 28;

/// A physical drive from the descriptor that it answered with (`got` bytes of
/// the buffer) and its size where the drive told one. `None` where the answer
/// is too short or the drive is a mounted image.
pub fn query(index: u32, buf: &[u8], got: usize, size: Option<i64>) -> (r: Option<PhysicalDisk>)
    ensures
        ({
            let bus = cpu::le_number(buf@, BUS_AT as int, 4) as u32;
            let vendor = cstr_bytes(buf@, cpu::le_number(buf@, VENDOR_AT as int, 4));
            let product = cstr_bytes(buf@, cpu::le_number(buf@, PRODUCT_AT as int, 4));
            let bytes = match size {
                Some(n) => n,
                None => 0i64,
            };
            &&& r.is_none() == (got < DESCRIPTOR_LEN || buf@.len() < DESCRIPTOR_LEN || is_virtual(
                bus,
            ))
            &&& r matches Some(d) ==> is_disk(
                index,
                smbios::text_of(vendor),
                smbios::text_of(product),
                bus,
                bytes,
                d,
            )
        }),
{
    if got < DESCRIPTOR_LEN || buf.len() < DESCRIPTOR_LEN {
        return None;
    }
    let vendor: String = cstr_at(buf, cpu::read_u32(buf, VENDOR_AT) as u32);
    let product: String = cstr_at(buf, cpu::read_u32(buf, PRODUCT_AT) as u32);
    let bus: u32 = cpu::read_u32(buf, BUS_AT) as u32;
    let n: i64 = match size {
        Some(n) => n,
        None => 0,
    };
    describe(index, vendor, product, bus, n)
}

/// All disks are switched off.
pub open spec fn all_off(disks: Seq<PhysicalDisk>, disabled: Seq<String>) -> bool {
    forall|i: int| 0 <= i < disks.len() ==> text::listed(disabled, (#[trigger] disks[i]).model@)
}

/// Disks with those of `disabled` off; where that would leave none on, all
/// are on.
pub open spec fn switched(disks: Seq<PhysicalDisk>, disabled: Seq<String>) -> Seq<PhysicalDisk> {
    Seq::new(
        disks.len(),
        |i: int|
            PhysicalDisk {
                enabled: !text::listed(disabled, disks[i].model@) || all_off(disks, disabled),
                ..disks[i]
            },
    )
}

/// Applies the user's switched-off list; when it would leave nothing on,
/// everything stays on.
pub fn with_disabled(disks: Vec<PhysicalDisk>, disabled: &Vec<String>) -> (r: Vec<PhysicalDisk>)
    ensures
        r@ == switched(disks@, disabled@),
{
    let ghost list0 = disks@;
    let mut list: Vec<PhysicalDisk> = disks;
    let mut any: bool = false;
    let mut i: usize = 0;
    while i < list.len()
        invariant
            i <= list@.len(),
            list@.len() == list0.len(),
            forall|j: int| i <= j < list0.len() ==> #[trigger] list@[j] == list0[j],
            forall|j: int|
                0 <= j < i ==> #[trigger] list@[j] == (PhysicalDisk {
                    enabled: !text::listed(disabled@, list0[j].model@),
                    ..list0[j]
                }),
            any == exists|j: int|
                0 <= j < i && !text::listed(disabled@, (#[trigger] list0[j]).model@),
        decreases list.len() - i,
    {
        let on: bool = !text::list_contains(disabled, list[i].model.as_str());
        list[i].enabled = on;
        if on {
            assert(!text::listed(disabled@, list0[i as int].model@));
            any = true;
        }
        i += 1;
    }
    if !any {
        let mut k: usize = 0;
        while k < list.len()
            invariant
                k <= list@.len(),
                list@.len() == list0.len(),
                forall|j: int|
                    k <= j < list0.len() ==> #[trigger] list@[j] == (PhysicalDisk {
                        enabled: !text::listed(disabled@, list0[j].model@),
                        ..list0[j]
                    }),
                forall|j: int|
                    0 <= j < k ==> #[trigger] list@[j] == (PhysicalDisk {
                        enabled: true,
                        ..list0[j]
                    }),
            decreases list.len() - k,
        {
            list[k].enabled = true;
            k += 1;
        }
    }
    assert(any == !all_off(list0, disabled@));
    assert(list@ =~= switched(list0, disabled@));
    list
}

/// However the user switches, a list that is not empty has a disk that is on.
pub proof fn law_one_disk_stays_on(disks: Seq<PhysicalDisk>, disabled: Seq<String>)
    requires
        disks.len() > 0,
    ensures
        exists|i: int| 0 <= i < disks.len() && (#[trigger] switched(disks, disabled)[i]).enabled,
{
    let s = switched(disks, disabled);
    if all_off(disks, disabled) {
        assert(s[0].enabled);
    } else {
        let w = choose|w: int|
            0 <= w < disks.len() && !text::listed(disabled, (#[trigger] disks[w]).model@);
        assert(s[w].enabled);
    }
}

/// Switching twice leaves what the second list says.
pub proof fn law_last_switch_counts(disks: Seq<PhysicalDisk>, a: Seq<String>, b: Seq<String>)
    ensures
        switched(switched(disks, a), b) == switched(disks, b),
{
    let s = switched(disks, a);
    assert(all_off(s, b) == all_off(disks, b)) by {
        assert forall|i: int| 0 <= i < disks.len() implies (#[trigger] disks[i]).model == (
        #[trigger] s[i]).model by {}
        if all_off(s, b) {
            assert forall|i: int| 0 <= i < disks.len() implies text::listed(
                b,
                (#[trigger] disks[i]).model@,
            ) by {
                assert(text::listed(b, s[i].model@));
            }
        }
    }
    assert(switched(s, b) =~= switched(disks, b));
}

/// A disk is on when its model is not among those switched off; only where all
/// of them are off are all on. Nothing else of the list changes.
pub proof fn law_switches_go_by_model(disks: Seq<PhysicalDisk>, disabled: Seq<String>, i: int, k: int)
    requires
        0 <= i < disks.len(),
        0 <= k < disks.len(),
        !text::listed(disabled, disks[k].model@),
    ensures
        switched(disks, disabled).len() == disks.len(),
        switched(disks, disabled)[k].enabled,
        text::listed(disabled, disks[i].model@) ==> !switched(disks, disabled)[i].enabled,
        switched(disks, disabled)[i].index == disks[i].index,
        switched(disks, disabled)[i].model == disks[i].model,
        switched(disks, disabled)[i].size == disks[i].size,
        switched(disks, disabled)[i].read_bps == disks[i].read_bps,
        switched(disks, disabled)[i].write_bps == disks[i].write_bps,
{
    assert(!all_off(disks, disabled)) by {
        assert(!text::listed(disabled, disks[k].model@));
    }
}

/// A drive keeps its number, says its size where the drive told one, and is
/// named: by its product, with its vendor in front where the product does not
/// begin with it. A drive without a vendor or a product has a name all the same.
pub proof fn law_drives_are_named(
    index: u32,
    vendor: Seq<char>,
    product: Seq<char>,
    bus: u32,
    size: i64,
    d: PhysicalDisk,
)
    requires
        is_disk(index, vendor, product, bus, size, d),
    ensures
        d.index == index,
        size >= 0 ==> d.size == size,
        size < 0 ==> d.size == 0,
        d.model@.len() > 0,
        product.len() > 0 ==> product.is_suffix_of(d.model@),
        product.len() > 0 && vendor.len() == 0 ==> d.model@ == product,
        vendor.len() > 0 && !vendor.is_prefix_of(product) ==> vendor.is_prefix_of(d.model@),
        vendor.is_prefix_of(product) && product.len() > 0 ==> d.model@ == product,
{
    reveal_strlit("Disk ");
    reveal_strlit(" ");
    assert(vendor.is_prefix_of(product) ==> text::occurs_at(product, vendor, 0)) by {
        if vendor.is_prefix_of(product) {
            assert(product.subrange(0, vendor.len() as int) =~= vendor);
        }
    }
    assert(text::occurs_at(product, vendor, 0) ==> vendor.is_prefix_of(product));
    let m = model_text(index as nat, vendor, product);
    assert(d.model@ == m);
    let joined = vendor + " "@ + product;
    assert(product.is_suffix_of(joined)) by {
        assert(joined.subrange(joined.len() - product.len(), joined.len() as int) =~= product);
    }
    assert(vendor.is_prefix_of(joined));
    assert(product.is_suffix_of(product)) by {
        assert(product.subrange(0, product.len() as int) =~= product);
    }
}

proof fn lemma_zero_from(b: Seq<u8>, from: int, at: int)
    requires
        0 <= from <= at < b.len(),
        b[at] == 0,
        forall|j: int| from <= j < at ==> #[trigger] b[j] != 0,
    ensures
        smbios::zero_from(b, from) == at,
    decreases at - from,
{
    if from < at {
        lemma_zero_from(b, from + 1, at);
    }
}

/// A string that is written into a descriptor with a zero behind it is read back
/// from where it stands.
pub proof fn law_descriptor_string_is_read_back(front: Seq<u8>, s: Seq<u8>, rest: Seq<u8>)
    requires
        front.len() > 0,
        forall|i: int| 0 <= i < s.len() ==> #[trigger] s[i] != 0,
    ensures
        cstr_bytes(front + s + seq![0u8] + rest, front.len()) == s,
        cstr_bytes(front, 0).len() == 0,
        cstr_bytes(front, front.len()).len() == 0,
{
    let b = front + s + seq![0u8] + rest;
    let at = front.len() + s.len();
    assert(b[at as int] == 0);
    assert forall|j: int| front.len() <= j < at implies #[trigger] b[j] != 0 by {
        assert(b[j] == s[j - front.len()]);
    }
    lemma_zero_from(b, front.len() as int, at as int);
    assert(b.subrange(front.len() as int, at as int) =~= s);
}

} // verus!
