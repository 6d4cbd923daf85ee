//! The decisions of the build tool: which target to build for, and whether
//! the file-system image must be packed again.
use vstd::prelude::*;
use vstd::string::StringSliceAdditionalSpecFns;

verus! {

/// The target triple of the RISC-V build, as bytes.
pub open spec fn riscv_triple() -> Seq<u8> {
    seq![
        0x72u8, 0x69u8, 0x73u8, 0x63u8, 0x76u8, 0x36u8, 0x34u8, 0x67u8, 0x63u8, 0x2du8, 0x75u8, 0x6eu8, 0x6bu8,
        0x6eu8, 0x6fu8, 0x77u8, 0x6eu8, 0x2du8, 0x6eu8, 0x6fu8, 0x6eu8, 0x65u8, 0x2du8, 0x65u8, 0x6cu8, 0x66u8,
    ]
}

/// The name `riscv`, as bytes.
pub open spec fn riscv_name() -> Seq<u8> {
    seq![0x72u8, 0x69u8, 0x73u8, 0x63u8, 0x76u8]
}

/// Whether `target` names the RISC-V target: it is absent, or `riscv`.
pub fn names_riscv(target: Option<&str>) -> (r: bool)
    ensures
        r == match target {
            None => true,
            Some(t) => t.spec_bytes() == riscv_name(),
        },
{
    match target {
        None => true,
        Some(t) => {
            let b = t.as_bytes();
            let ok = b.len() == 5 && b[0] == 0x72 && b[1] == 0x69 && b[2] == 0x73 && b[3] == 0x63 && b[4] == 0x76;
            proof {
                if ok {
                    assert(b@ =~= riscv_name());
                }
            }
            ok
        },
    }
}

/// The target triple to build for. Only the RISC-V target is known: the
/// target must be absent or `riscv`.
pub fn get_target(target: Option<&str>) -> (r: Vec<u8>)
    requires
        match target {
            None => true,
            Some(t) => t.spec_bytes() == riscv_name(),
        },
    ensures
        r@ == riscv_triple(),
{
    let r = vec![
        0x72u8, 0x69u8, 0x73u8, 0x63u8, 0x76u8, 0x36u8, 0x34u8, 0x67u8, 0x63u8, 0x2du8, 0x75u8, 0x6eu8, 0x6bu8,
        0x6eu8, 0x6fu8, 0x77u8, 0x6eu8, 0x2du8, 0x6eu8, 0x6fu8, 0x6eu8, 0x65u8, 0x2du8, 0x65u8, 0x6cu8, 0x66u8,
    ];
    assert(r@ =~= riscv_triple());
    r
}

/// Whether the image must be packed again: when packing is forced, or when
/// some source was modified after the image (times in nanoseconds).
pub fn need_pack(force_pack: bool, image_modified: u128, sources_modified: &Vec<u128>) -> (r: bool)
    ensures
        r == (force_pack || exists|i: int| 0 <= i < sources_modified@.len() && #[trigger] sources_modified@[i] > image_modified),
{
    if force_pack {
        return true;
    }
    let mut i: usize = 0;
    while i < sources_modified.len()
        invariant
            0 <= i <= sources_modified@.len(),
            forall|j: int| 0 <= j < i ==> #[trigger] sources_modified@[j] <= image_modified,
        decreases sources_modified@.len() - i,
    {
        if sources_modified[i] > image_modified {
            return true;
        }
        i = i + 1;
    }
    false
}

} // verus!
