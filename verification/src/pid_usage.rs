//! A line-event registry of used prototype identifiers: an explicit
//! finite-state accumulator fed one section or directive event at a time,
//! tracking the current record's identifier and type discriminant (the
//! sentinel `0` meaning unset) and closing the record out into a map of
//! used identifiers at each section boundary.

use vstd::prelude::*;

use crate::errors::ProtoError;
use crate::records::{k_proto_id, k_type, kv_proto_id, kv_type};
use crate::registry::{lower_bound, PidMap};
use crate::scalar::{parse_int, parse_int_s};
use crate::text::bytes_eq;

verus! {

/// The view of an optional directive value.
pub open spec fn opt_val_view(v: Option<&[u8]>) -> Option<Seq<u8>> {
    match v {
        Some(s) => Some(s@),
        None => None,
    }
}

/// One directive event's effect on the current accumulator: `ProtoId` and
/// `Type` must carry a canonical integer literal in range; the sentinel `0`
/// leaves the slot unset; a slot assigned twice is a duplicate field; any
/// other key is ignored.
pub open spec fn directive_step(
    cur: Option<(u16, i32)>,
    key: Seq<u8>,
    value: Option<Seq<u8>>,
) -> Result<Option<(u16, i32)>, ProtoError> {
    if key == k_proto_id() {
        match value {
            None => Err(ProtoError::DecodeMismatch),
            Some(v) => match parse_int_s(v) {
                Some(n) => if 0 <= n <= 65535 {
                    let pid = n as u16;
                    match cur {
                        None => Ok(Some((pid, 0i32))),
                        Some((p, ty)) => if p == 0 {
                            Ok(Some((pid, ty)))
                        } else {
                            Err(ProtoError::DuplicateField)
                        },
                    }
                } else {
                    Err(ProtoError::DecodeMismatch)
                },
                None => Err(ProtoError::DecodeMismatch),
            },
        }
    } else if key == k_type() {
        match value {
            None => Err(ProtoError::DecodeMismatch),
            Some(v) => match parse_int_s(v) {
                Some(n) => if i32::MIN <= n <= i32::MAX {
                    let ty = n as i32;
                    match cur {
                        None => Ok(Some((0u16, ty))),
                        Some((p, t)) => if t == 0 {
                            Ok(Some((p, ty)))
                        } else {
                            Err(ProtoError::DuplicateField)
                        },
                    }
                } else {
                    Err(ProtoError::DecodeMismatch)
                },
                None => Err(ProtoError::DecodeMismatch),
            },
        }
    } else {
        Ok(cur)
    }
}

/// The accumulator: the identifiers already used, with the type discriminant
/// each record declared, and the record currently being read.
pub struct ProtoInner {
    pub used: PidMap<i32>,
    pub current: Option<(u16, i32)>,
}

impl ProtoInner {
    /// A well-formed accumulator: a well-formed registry of used
    /// identifiers.
    pub open spec fn wf(&self) -> bool {
        self.used.wf()
    }

    /// The empty accumulator.
    pub fn new() -> (r: ProtoInner)
        ensures
            r.wf(),
            r.used.keys@ == Seq::<u16>::empty(),
            r.used.vals@ == Seq::<i32>::empty(),
            r.current is None,
    {
        ProtoInner { used: PidMap::new(), current: None }
    }

    /// Closes the current record out: nothing to do with no record open; a
    /// record whose identifier or type is still the sentinel is incomplete;
    /// a complete record registers its identifier, refusing a collision.
    pub fn insert(&mut self) -> (r: Result<(), ProtoError>)
        requires
            old(self).wf(),
        ensures
            final(self).wf(),
            match r {
                Ok(()) => final(self).current is None && (match old(self).current {
                    None => final(self).used == old(self).used,
                    Some((k, v)) => k != 0 && v != 0 && !old(self).used.keys@.contains(k)
                        && final(self).used.keys@ == old(self).used.keys@.insert(
                        lower_bound(old(self).used.keys@, k),
                        k,
                    ) && final(self).used.vals@ == old(self).used.vals@.insert(
                        lower_bound(old(self).used.keys@, k),
                        v,
                    ),
                }),
                Err(e) => final(self).used.keys@ == old(self).used.keys@ && final(self).used.vals@
                    == old(self).used.vals@ && final(self).current == old(self).current
                    && (match old(self).current {
                    None => false,
                    Some((k, v)) => if k == 0 || v == 0 {
                        e == ProtoError::IncompleteRecord
                    } else {
                        e == (ProtoError::IdentifierCollision { pid: k })
                            && old(self).used.keys@.contains(k)
                    },
                }),
            },
    {
        match self.current {
            None => Ok(()),
            Some((k, v)) => {
                if k == 0 || v == 0 {
                    return Err(ProtoError::IncompleteRecord);
                }
                match self.used.insert(k, v) {
                    Ok(()) => {
                        self.current = None;
                        Ok(())
                    },
                    Err(e) => Err(e),
                }
            },
        }
    }

    /// Feeds one directive event to the accumulator.
    pub fn directive(&mut self, key: &[u8], value: Option<&[u8]>) -> (r: Result<(), ProtoError>)
        requires
            old(self).wf(),
        ensures
            final(self).wf(),
            final(self).used == old(self).used,
            match r {
                Ok(()) => directive_step(old(self).current, key@, opt_val_view(value)) == Ok::<
                    Option<(u16, i32)>,
                    ProtoError,
                >(final(self).current),
                Err(e) => directive_step(old(self).current, key@, opt_val_view(value)) == Err::<
                    Option<(u16, i32)>,
                    ProtoError,
                >(e) && final(self).current == old(self).current,
            },
    {
        if bytes_eq(key, kv_proto_id().as_slice()) {
            let v = match value {
                None => {
                    return Err(ProtoError::DecodeMismatch);
                },
                Some(v) => v,
            };
            let n = match parse_int(v) {
                None => {
                    return Err(ProtoError::DecodeMismatch);
                },
                Some(n) => n,
            };
            if !(0 <= n && n <= 65535) {
                return Err(ProtoError::DecodeMismatch);
            }
            let pid = n as u16;
            match self.current {
                None => {
                    self.current = Some((pid, 0i32));
                },
                Some((p, ty)) => {
                    if p == 0 {
                        self.current = Some((pid, ty));
                    } else {
                        return Err(ProtoError::DuplicateField);
                    }
                },
            }
            Ok(())
        } else if bytes_eq(key, kv_type().as_slice()) {
            let v = match value {
                None => {
                    return Err(ProtoError::DecodeMismatch);
                },
                Some(v) => v,
            };
            let n = match parse_int(v) {
                None => {
                    return Err(ProtoError::DecodeMismatch);
                },
                Some(n) => n,
            };
            if !(-0x8000_0000 <= n && n <= 0x7fff_ffff) {
                return Err(ProtoError::DecodeMismatch);
            }
            let ty = n as i32;
            match self.current {
                None => {
                    self.current = Some((0u16, ty));
                },
                Some((p, t)) => {
                    if t == 0 {
                        self.current = Some((p, ty));
                    } else {
                        return Err(ProtoError::DuplicateField);
                    }
                },
            }
            Ok(())
        } else {
            Ok(())
        }
    }

}

/// The used-identifier registry of one source document, fed through the
/// accumulator one event at a time.
pub struct Proto {
    pub inner: ProtoInner,
}

impl Proto {
    /// The empty registry.
    pub fn new() -> (r: Proto)
        ensures
            r.inner.wf(),
            r.inner.used.keys@ == Seq::<u16>::empty(),
            r.inner.current is None,
    {
        Proto { inner: ProtoInner::new() }
    }

    /// The identifiers seen so far, with each record's type discriminant.
    pub fn _used(&self) -> (r: &PidMap<i32>)
        ensures
            *r == self.inner.used,
    {
        &self.inner.used
    }
}

impl Default for Proto {
    /// The empty registry.
    fn default() -> (r: Proto)
        ensures
            r.inner.wf(),
            r.inner.used.keys@ == Seq::<u16>::empty(),
            r.inner.current is None,
    {
        Proto::new()
    }
}

} // verus!
