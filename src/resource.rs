use vstd::prelude::*;
use vstd::string::StringExecFns;

use crate::text::{digit, hex_digit};

verus! {

/// A 32-byte content hash.
#[derive(Clone, Copy, Debug, Hash)]
pub struct Checksum(pub [u8; 32]);

impl PartialEq for Checksum {
    fn eq(&self, o: &Checksum) -> (r: bool) {
        let mut i: usize = 0;
        while i < 32
            invariant
                i <= 32,
                self.0@.len() == 32,
                o.0@.len() == 32,
                forall|j: int| 0 <= j < i ==> self.0@[j] == o.0@[j],
            decreases 32 - i,
        {
            if self.0[i] != o.0[i] {
                return false;
            }
            i = i + 1;
        }
        assert(self.0@ =~= o.0@);
        true
    }
}

impl vstd::std_specs::cmp::PartialEqSpecImpl for Checksum {
    open spec fn obeys_eq_spec() -> bool {
        true
    }

    open spec fn eq_spec(&self, o: &Checksum) -> bool {
        self.0@ == o.0@
    }
}

/// Two upper-case hexadecimal digits per byte, in order.
pub open spec fn hex_of(b: Seq<u8>) -> Seq<char>
    decreases b.len(),
{
    if b.len() == 0 {
        Seq::empty()
    } else {
        hex_of(b.drop_last()) + seq![hex_digit(b.last() / 16), hex_digit(b.last() % 16)]
    }
}

impl Checksum {
    /// The checksum in upper-case hexadecimal, two digits per byte.
    pub fn to_hex(&self) -> (r: String)
        ensures
            r@ == hex_of(self.0@),
    {
        let mut out = String::new();
        let mut i: usize = 0;
        assert(self.0@.take(0) =~= Seq::<u8>::empty());
        while i < 32
            invariant
                i <= 32,
                self.0@.len() == 32,
                out@ == hex_of(self.0@.take(i as int)),
            decreases 32 - i,
        {
            let b = self.0[i];
            out.append(digit(b / 16));
            out.append(digit(b % 16));
            proof {
                assert(self.0@.take(i + 1).drop_last() =~= self.0@.take(i as int));
            }
            i = i + 1;
        }
        assert(self.0@.take(32) =~= self.0@);
        out
    }

    /// The checksum as it is shown for debugging: `Checksum ` and then its
    /// hexadecimal digits.
    pub fn debug_text(&self) -> (r: String)
        ensures
            r@ == "Checksum "@ + hex_of(self.0@),
    {
        let mut out = String::new();
        out.append("Checksum ");
        let hex = self.to_hex();
        out.append(hex.as_str());
        out
    }
}

/// A content-addressed payload: its checksum, and, when this end can
/// produce it, the payload itself, handed out once.
pub struct Resource<T> {
    checksum: Checksum,
    acquire: Option<T>,
}

/// Why a resource could not be turned into its payload. The resource is
/// handed back so that it can be acquired some other way.
pub struct ReifyError<T> {
    pub resource: Resource<T>,
}

impl<T> Resource<T> {
    /// The checksum that identifies this resource.
    pub closed spec fn spec_checksum(&self) -> Checksum {
        self.checksum
    }

    /// The payload this end can hand out, if any.
    pub closed spec fn held(&self) -> Option<T> {
        self.acquire
    }

    /// A resource that holds `item`, whose checksum is `checksum`.
    pub fn new(item: T, checksum: Checksum) -> (r: Resource<T>)
        ensures
            r.spec_checksum() == checksum,
            r.held() == Some(item),
    {
        Resource { checksum, acquire: Some(item) }
    }

    /// A resource known only by its checksum.
    pub fn new_ref(checksum: Checksum) -> (r: Resource<T>)
        ensures
            r.spec_checksum() == checksum,
            r.held() is None,
    {
        Resource { checksum, acquire: None }
    }

    /// The checksum that identifies this resource.
    pub fn checksum(&self) -> (r: Checksum)
        ensures
            r == self.spec_checksum(),
    {
        self.checksum
    }

    /// Whether two resources are the same content: their checksums agree.
    pub fn same_as(&self, other: &Resource<T>) -> (r: bool)
        ensures
            r == (self.spec_checksum().0@ == other.spec_checksum().0@),
    {
        self.checksum == other.checksum
    }

    /// A reference to the same content that holds no payload.
    pub fn clone_ref(&self) -> (r: Resource<T>)
        ensures
            r.spec_checksum() == self.spec_checksum(),
            r.held() is None,
    {
        Resource { checksum: self.checksum, acquire: None }
    }

    /// The payload, when this resource holds it; otherwise the resource comes
    /// back inside the error.
    pub fn reify(self) -> (r: Result<T, ReifyError<T>>)
        ensures
            self.held() matches Some(item) ==> r == Ok::<T, ReifyError<T>>(item),
            self.held() is None ==> (r matches Err(e) && e.resource == self),
    {
        match self.acquire {
            Some(item) => Ok(item),
            None => Err(ReifyError { resource: Resource { checksum: self.checksum, acquire: None } }),
        }
    }
}

impl<T> ReifyError<T> {
    /// What went wrong, in words.
    pub fn message(&self) -> (r: &'static str)
        ensures
            r@ == "reification failed: no suitable acquisition method"@,
    {
        "reification failed: no suitable acquisition method"
    }
}

} // verus!
