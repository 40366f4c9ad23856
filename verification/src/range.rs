//! The addresses of a scan: every address from a first to a last one, in
//! ascending order.

use vstd::prelude::*;
use crate::addr::{dotted_quad, parse_address};
use crate::error::ScanError;

verus! {

/// The addresses from `start` to `end`, both included. With `start` above `end`
/// the range is empty; that is no error.
#[derive(Clone, Copy, Debug, PartialEq, Eq, Structural)]
pub struct AddressRange {
    pub start: u32,
    pub end: u32,
}

impl AddressRange {
    /// How many addresses the range holds.
    pub open spec fn count(self) -> nat {
        if self.start <= self.end {
            (self.end - self.start + 1) as nat
        } else {
            0
        }
    }

    /// Whether `address` lies in the range.
    pub open spec fn holds(self, address: u32) -> bool {
        self.start <= address <= self.end
    }

    /// The address at `index` of the range, counted from zero.
    pub open spec fn at(self, index: int) -> u32 {
        (self.start + index) as u32
    }

    /// The addresses of the range, in the order of the scan.
    pub open spec fn addresses(self) -> Seq<u32> {
        Seq::new(self.count(), |index: int| self.at(index))
    }

    /// The range from `start` to `end`.
    pub fn new(start: u32, end: u32) -> (range: AddressRange)
        ensures
            range == (AddressRange { start, end }),
    {
        AddressRange { start, end }
    }

    /// The range between two addresses given as text. Both must be canonical
    /// dotted quads; the first text that is none is the error.
    pub fn parse(start: &str, end: &str) -> (parsed: Result<AddressRange, ScanError>)
        ensures
            match parsed {
                Ok(range) => start@ == dotted_quad(range.start) && end@ == dotted_quad(range.end),
                Err(error) => error == ScanError::AddressParseError && ((forall|address: u32|
                    start@ != #[trigger] dotted_quad(address)) || (forall|address: u32|
                    end@ != #[trigger] dotted_quad(address))),
            },
            forall|first: u32, last: u32|
                start@ == #[trigger] dotted_quad(first) && end@ == #[trigger] dotted_quad(last)
                    ==> parsed == Ok::<AddressRange, ScanError>(
                    AddressRange { start: first, end: last },
                ),
    {
        let first = match parse_address(start) {
            Ok(address) => address,
            Err(error) => {
                return Err(error);
            },
        };
        let last = match parse_address(end) {
            Ok(address) => address,
            Err(error) => {
                return Err(error);
            },
        };
        Ok(AddressRange { start: first, end: last })
    }

    /// How many addresses the range holds.
    pub fn len(&self) -> (count: u64)
        ensures
            count == self.count(),
    {
        if self.start <= self.end {
            (self.end - self.start) as u64 + 1
        } else {
            0
        }
    }

    /// Whether the range holds no address.
    pub fn is_empty(&self) -> (empty: bool)
        ensures
            empty <==> self.count() == 0,
    {
        self.start > self.end
    }

    /// Whether `address` lies in the range.
    pub fn contains(&self, address: u32) -> (inside: bool)
        ensures
            inside == self.holds(address),
    {
        self.start <= address && address <= self.end
    }

    /// The address at `index` of the range, if the range is that long. The
    /// range can be walked again from any index.
    pub fn get(&self, index: u64) -> (address: Option<u32>)
        ensures
            index < self.count() ==> address == Some(self.addresses()[index as int]),
            index >= self.count() ==> address is None,
    {
        if index < self.len() {
            Some((self.start as u64 + index) as u32)
        } else {
            None
        }
    }

    /// The range holds `end - start + 1` addresses where `start` is not above
    /// `end`, and none otherwise; they ascend one by one from `start` to `end`,
    /// and they are the addresses that lie in the range.
    pub proof fn lemma_addresses(self)
        ensures
            self.addresses().len() == self.count(),
            self.start <= self.end ==> self.count() == self.end - self.start + 1,
            self.start > self.end ==> self.addresses() == Seq::<u32>::empty(),
            forall|i: int|
                0 <= i < self.count() ==> #[trigger] self.addresses()[i] == self.start + i,
            forall|i: int, j: int|
                0 <= i < j < self.count() ==> self.addresses()[i] < self.addresses()[j],
            forall|address: u32| #[trigger]
                self.addresses().contains(address) <==> self.holds(address),
    {
        assert forall|address: u32| #[trigger]
            self.addresses().contains(address) <==> self.holds(address) by {
            if self.holds(address) {
                assert(self.addresses()[address - self.start] == address);
            }
        }
        if self.start > self.end {
            assert(self.addresses() =~= Seq::<u32>::empty());
        }
    }
}

} // verus!
