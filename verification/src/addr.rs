//! Typed addresses as the x86_64 crate represents them: trusted
//! declarations of its virtual- and physical-address wrappers, so the
//! verified mapper can offer the same address-typed translation surface the
//! rest of the kernel uses.

use vstd::prelude::*;
use crate::memory_map::PAGE_SIZE;
use crate::paging::PageMapper;

verus! {

#[verifier::external_type_specification]
#[verifier::external_body]
pub struct ExVirtAddr(x86_64::VirtAddr);

#[verifier::external_type_specification]
#[verifier::external_body]
pub struct ExPhysAddr(x86_64::PhysAddr);

/// The 64-bit value a virtual address wraps.
pub uninterp spec fn virt_addr_value(a: x86_64::VirtAddr) -> u64;

/// The 64-bit value a physical address wraps.
pub uninterp spec fn phys_addr_value(a: x86_64::PhysAddr) -> u64;

/// Relies on x86_64's VirtAddr::as_u64: returns the wrapped 64-bit value.
pub assume_specification[ x86_64::VirtAddr::as_u64 ](a: x86_64::VirtAddr) -> (r: u64)
    ensures
        r == virt_addr_value(a),
;

/// Relies on x86_64's PhysAddr::new_truncate: wraps the address, throwing
/// bits 52..64 away.
pub assume_specification[ x86_64::PhysAddr::new_truncate ](addr: u64) -> (r: x86_64::PhysAddr)
    ensures
        phys_addr_value(r) == addr % 0x10_0000_0000_0000u64,
;

impl PageMapper {
    /// `translate_addr` over the x86_64 crate's address types: walks the
    /// hierarchy for the typed virtual address and returns the typed
    /// physical address — the mapped frame plus the page offset — or nothing
    /// if any level is absent.
    pub fn translate_virt(&self, addr: x86_64::VirtAddr) -> (r: Option<x86_64::PhysAddr>)
        requires
            self.wf(),
        ensures
            self.walk(virt_addr_value(addr)) is None ==> r is None,
            self.walk(virt_addr_value(addr)) matches Some((f, fl)) ==> (r matches Some(pa)
                && phys_addr_value(pa) == ((f + virt_addr_value(addr) % PAGE_SIZE) as u64)
                % 0x10_0000_0000_0000u64),
    {
        let va = addr.as_u64();
        match self.translate_addr(va) {
            Some(p) => Some(x86_64::PhysAddr::new_truncate(p)),
            None => None,
        }
    }
}

} // verus!
