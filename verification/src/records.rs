//! The record shapes and their decoder: each array-of-tables entry of the
//! canonical document becomes one typed record. A shape declares a mandatory
//! numeric identifier (with an alias), optional typed fields (some with
//! aliases), and — for items — an open extension map that keeps every
//! undeclared key losslessly. The sentinel value `0` leaves the identifier
//! and the type discriminant unset, and a record whose section closes with
//! either still unset is rejected as incomplete.

use vstd::prelude::*;

use crate::errors::ProtoError;
use crate::scalar::{Scalar, ScalarV};
use crate::text::bytes_eq;
use crate::toml_de::{entries_view, has_key};

verus! {

/// The key `ProtoId`.
pub open spec fn k_proto_id() -> Seq<u8> {
    seq![80u8, 114u8, 111u8, 116u8, 111u8, 73u8, 100u8]
}

/// The key `Pid`, an alias of `ProtoId`.
pub open spec fn k_pid() -> Seq<u8> {
    seq![80u8, 105u8, 100u8]
}

/// The key `Type`.
pub open spec fn k_type() -> Seq<u8> {
    seq![84u8, 121u8, 112u8, 101u8]
}

/// The key `PicMap`.
pub open spec fn k_pic_map() -> Seq<u8> {
    seq![80u8, 105u8, 99u8, 77u8, 97u8, 112u8]
}

/// The key `PicMapName`, an alias of `PicMap`.
pub open spec fn k_pic_map_name() -> Seq<u8> {
    seq![80u8, 105u8, 99u8, 77u8, 97u8, 112u8, 78u8, 97u8, 109u8, 101u8]
}

/// The key `PicInv`.
pub open spec fn k_pic_inv() -> Seq<u8> {
    seq![80u8, 105u8, 99u8, 73u8, 110u8, 118u8]
}

/// The key `PicInvName`, an alias of `PicInv`.
pub open spec fn k_pic_inv_name() -> Seq<u8> {
    seq![80u8, 105u8, 99u8, 73u8, 110u8, 118u8, 78u8, 97u8, 109u8, 101u8]
}

/// The key `Flags`.
pub open spec fn k_flags() -> Seq<u8> {
    seq![70u8, 108u8, 97u8, 103u8, 115u8]
}

/// The key `Grid_Type`.
pub open spec fn k_grid_type() -> Seq<u8> {
    seq![71u8, 114u8, 105u8, 100u8, 95u8, 84u8, 121u8, 112u8, 101u8]
}

/// The key `Weapon_Perk`.
pub open spec fn k_weapon_perk() -> Seq<u8> {
    seq![87u8, 101u8, 97u8, 112u8, 111u8, 110u8, 95u8, 80u8, 101u8, 114u8, 107u8]
}

/// The section name `Proto`.
pub open spec fn k_proto() -> Seq<u8> {
    seq![80u8, 114u8, 111u8, 116u8, 111u8]
}

/// The section name `Critter proto`, its alias.
pub open spec fn k_critter_proto() -> Seq<u8> {
    seq![
        67u8,
        114u8,
        105u8,
        116u8,
        116u8,
        101u8,
        114u8,
        32u8,
        112u8,
        114u8,
        111u8,
        116u8,
        111u8,
    ]
}

/// Which declared field of the item shape a key names.
#[derive(Clone, Copy, Debug, PartialEq, Eq, Structural)]
pub enum KeyKind {
    KPid,
    KType,
    KPicMap,
    KPicInv,
    KFlags,
    KGrid,
    KWeapon,
    KOther,
}

/// Resolves a key, canonical names and aliases alike, to the field it names.
pub open spec fn key_kind_s(k: Seq<u8>) -> KeyKind {
    if k == k_proto_id() || k == k_pid() {
        KeyKind::KPid
    } else if k == k_type() {
        KeyKind::KType
    } else if k == k_pic_map() || k == k_pic_map_name() {
        KeyKind::KPicMap
    } else if k == k_pic_inv() || k == k_pic_inv_name() {
        KeyKind::KPicInv
    } else if k == k_flags() {
        KeyKind::KFlags
    } else if k == k_grid_type() {
        KeyKind::KGrid
    } else if k == k_weapon_perk() {
        KeyKind::KWeapon
    } else {
        KeyKind::KOther
    }
}

/// The bytes of the key `ProtoId`.
pub fn kv_proto_id() -> (v: Vec<u8>)
    ensures
        v@ == k_proto_id(),
{
    let v: Vec<u8> = vec![80u8, 114u8, 111u8, 116u8, 111u8, 73u8, 100u8];
    proof {
        assert(v@ =~= k_proto_id());
    }
    v
}

/// The bytes of the key `Pid`.
pub fn kv_pid() -> (v: Vec<u8>)
    ensures
        v@ == k_pid(),
{
    let v: Vec<u8> = vec![80u8, 105u8, 100u8];
    proof {
        assert(v@ =~= k_pid());
    }
    v
}

/// The bytes of the key `Type`.
pub fn kv_type() -> (v: Vec<u8>)
    ensures
        v@ == k_type(),
{
    let v: Vec<u8> = vec![84u8, 121u8, 112u8, 101u8];
    proof {
        assert(v@ =~= k_type());
    }
    v
}

/// The bytes of the key `PicMap`.
pub fn kv_pic_map() -> (v: Vec<u8>)
    ensures
        v@ == k_pic_map(),
{
    let v: Vec<u8> = vec![80u8, 105u8, 99u8, 77u8, 97u8, 112u8];
    proof {
        assert(v@ =~= k_pic_map());
    }
    v
}

/// The bytes of the key `PicMapName`.
pub fn kv_pic_map_name() -> (v: Vec<u8>)
    ensures
        v@ == k_pic_map_name(),
{
    let v: Vec<u8> = vec![80u8, 105u8, 99u8, 77u8, 97u8, 112u8, 78u8, 97u8, 109u8, 101u8];
    proof {
        assert(v@ =~= k_pic_map_name());
    }
    v
}

/// The bytes of the key `PicInv`.
pub fn kv_pic_inv() -> (v: Vec<u8>)
    ensures
        v@ == k_pic_inv(),
{
    let v: Vec<u8> = vec![80u8, 105u8, 99u8, 73u8, 110u8, 118u8];
    proof {
        assert(v@ =~= k_pic_inv());
    }
    v
}

/// The bytes of the key `PicInvName`.
pub fn kv_pic_inv_name() -> (v: Vec<u8>)
    ensures
        v@ == k_pic_inv_name(),
{
    let v: Vec<u8> = vec![80u8, 105u8, 99u8, 73u8, 110u8, 118u8, 78u8, 97u8, 109u8, 101u8];
    proof {
        assert(v@ =~= k_pic_inv_name());
    }
    v
}

/// The bytes of the key `Flags`.
pub fn kv_flags() -> (v: Vec<u8>)
    ensures
        v@ == k_flags(),
{
    let v: Vec<u8> = vec![70u8, 108u8, 97u8, 103u8, 115u8];
    proof {
        assert(v@ =~= k_flags());
    }
    v
}

/// The bytes of the key `Grid_Type`.
pub fn kv_grid_type() -> (v: Vec<u8>)
    ensures
        v@ == k_grid_type(),
{
    let v: Vec<u8> = vec![71u8, 114u8, 105u8, 100u8, 95u8, 84u8, 121u8, 112u8, 101u8];
    proof {
        assert(v@ =~= k_grid_type());
    }
    v
}

/// The bytes of the key `Weapon_Perk`.
pub fn kv_weapon_perk() -> (v: Vec<u8>)
    ensures
        v@ == k_weapon_perk(),
{
    let v: Vec<u8> = vec![87u8, 101u8, 97u8, 112u8, 111u8, 110u8, 95u8, 80u8, 101u8, 114u8, 107u8];
    proof {
        assert(v@ =~= k_weapon_perk());
    }
    v
}

/// The bytes of the section name `Proto`.
pub fn kv_proto() -> (v: Vec<u8>)
    ensures
        v@ == k_proto(),
{
    let v: Vec<u8> = vec![80u8, 114u8, 111u8, 116u8, 111u8];
    proof {
        assert(v@ =~= k_proto());
    }
    v
}

/// The bytes of the section name `Critter proto`.
pub fn kv_critter_proto() -> (v: Vec<u8>)
    ensures
        v@ == k_critter_proto(),
{
    let v: Vec<u8> = vec![
        67u8,
        114u8,
        105u8,
        116u8,
        116u8,
        101u8,
        114u8,
        32u8,
        112u8,
        114u8,
        111u8,
        116u8,
        111u8,
    ];
    proof {
        assert(v@ =~= k_critter_proto());
    }
    v
}

/// Resolves a key to the item-shape field it names.
pub fn key_kind(k: &[u8]) -> (r: KeyKind)
    ensures
        r == key_kind_s(k@),
{
    if bytes_eq(k, kv_proto_id().as_slice()) || bytes_eq(k, kv_pid().as_slice()) {
        KeyKind::KPid
    } else if bytes_eq(k, kv_type().as_slice()) {
        KeyKind::KType
    } else if bytes_eq(k, kv_pic_map().as_slice()) || bytes_eq(k, kv_pic_map_name().as_slice()) {
        KeyKind::KPicMap
    } else if bytes_eq(k, kv_pic_inv().as_slice()) || bytes_eq(k, kv_pic_inv_name().as_slice()) {
        KeyKind::KPicInv
    } else if bytes_eq(k, kv_flags().as_slice()) {
        KeyKind::KFlags
    } else if bytes_eq(k, kv_grid_type().as_slice()) {
        KeyKind::KGrid
    } else if bytes_eq(k, kv_weapon_perk().as_slice()) {
        KeyKind::KWeapon
    } else {
        KeyKind::KOther
    }
}

/// The view of an optional byte vector.
pub open spec fn opt_bytes_view(o: Option<Vec<u8>>) -> Option<Seq<u8>> {
    match o {
        Some(v) => Some(v@),
        None => None,
    }
}

/// A typed item record.
#[derive(Debug, Clone, PartialEq, Eq)]
pub struct ProtoItem {
    pub proto_id: u16,
    pub ty: u8,
    pub pic_map: Vec<u8>,
    pub pic_inv: Option<Vec<u8>>,
    pub flags: Option<u32>,
    pub grid_type: Option<u8>,
    pub weapon_perk: Option<u32>,
    pub extra_fields: Vec<(Vec<u8>, Scalar)>,
}

/// The mathematical value of a [`ProtoItem`].
pub struct ProtoItemV {
    pub proto_id: u16,
    pub ty: u8,
    pub pic_map: Seq<u8>,
    pub pic_inv: Option<Seq<u8>>,
    pub flags: Option<u32>,
    pub grid_type: Option<u8>,
    pub weapon_perk: Option<u32>,
    pub extra_fields: Seq<(Seq<u8>, ScalarV)>,
}

impl View for ProtoItem {
    type V = ProtoItemV;

    open spec fn view(&self) -> ProtoItemV {
        ProtoItemV {
            proto_id: self.proto_id,
            ty: self.ty,
            pic_map: self.pic_map@,
            pic_inv: opt_bytes_view(self.pic_inv),
            flags: self.flags,
            grid_type: self.grid_type,
            weapon_perk: self.weapon_perk,
            extra_fields: entries_view(self.extra_fields@),
        }
    }
}

/// A typed critter record: only the identifier is declared; every other
/// key of its section is ignored.
#[derive(Debug, Clone, PartialEq, Eq)]
pub struct ProtoCritter {
    pub proto_id: u16,
}

/// The mathematical value of a [`ProtoCritter`].
pub struct ProtoCritterV {
    pub proto_id: u16,
}

impl View for ProtoCritter {
    type V = ProtoCritterV;

    open spec fn view(&self) -> ProtoCritterV {
        ProtoCritterV { proto_id: self.proto_id }
    }
}

/// The item accumulator while a section's entries are folded: each declared
/// field not yet seen, the identifier and the discriminant treated as unset
/// while they hold the sentinel `0`.
pub struct ItemAccV {
    pub proto_id: Option<u16>,
    pub ty: Option<u8>,
    pub pic_map: Option<Seq<u8>>,
    pub pic_inv: Option<Seq<u8>>,
    pub flags: Option<u32>,
    pub grid_type: Option<u8>,
    pub weapon_perk: Option<u32>,
    pub extra: Seq<(Seq<u8>, ScalarV)>,
}

/// The empty item accumulator.
pub open spec fn item_acc0() -> ItemAccV {
    ItemAccV {
        proto_id: None,
        ty: None,
        pic_map: None,
        pic_inv: None,
        flags: None,
        grid_type: None,
        weapon_perk: None,
        extra: Seq::empty(),
    }
}

/// One entry's effect on the item accumulator: a declared field must carry
/// a scalar of its type and may be assigned only once (directly or through
/// its alias); the sentinel `0` leaves the identifier or the discriminant
/// unset; any other key is kept in the extension map, itself free of
/// repeated keys.
pub open spec fn item_step(acc: ItemAccV, e: (Seq<u8>, ScalarV)) -> Result<ItemAccV, ProtoError> {
    match key_kind_s(e.0) {
        KeyKind::KPid => match e.1 {
            ScalarV::Int(n) => if 0 <= n <= 65535 {
                if acc.proto_id is Some {
                    Err(ProtoError::DuplicateField)
                } else if n == 0 {
                    Ok(acc)
                } else {
                    Ok(ItemAccV { proto_id: Some(n as u16), ..acc })
                }
            } else {
                Err(ProtoError::DecodeMismatch)
            },
            ScalarV::Str(_) => Err(ProtoError::DecodeMismatch),
        },
        KeyKind::KType => match e.1 {
            ScalarV::Int(n) => if 0 <= n <= 255 {
                if acc.ty is Some {
                    Err(ProtoError::DuplicateField)
                } else if n == 0 {
                    Ok(acc)
                } else {
                    Ok(ItemAccV { ty: Some(n as u8), ..acc })
                }
            } else {
                Err(ProtoError::DecodeMismatch)
            },
            ScalarV::Str(_) => Err(ProtoError::DecodeMismatch),
        },
        KeyKind::KPicMap => match e.1 {
            ScalarV::Str(s) => if acc.pic_map is Some {
                Err(ProtoError::DuplicateField)
            } else {
                Ok(ItemAccV { pic_map: Some(s), ..acc })
            },
            ScalarV::Int(_) => Err(ProtoError::DecodeMismatch),
        },
        KeyKind::KPicInv => match e.1 {
            ScalarV::Str(s) => if acc.pic_inv is Some {
                Err(ProtoError::DuplicateField)
            } else {
                Ok(ItemAccV { pic_inv: Some(s), ..acc })
            },
            ScalarV::Int(_) => Err(ProtoError::DecodeMismatch),
        },
        KeyKind::KFlags => match e.1 {
            ScalarV::Int(n) => if 0 <= n <= 0xffff_ffff {
                if acc.flags is Some {
                    Err(ProtoError::DuplicateField)
                } else {
                    Ok(ItemAccV { flags: Some(n as u32), ..acc })
                }
            } else {
                Err(ProtoError::DecodeMismatch)
            },
            ScalarV::Str(_) => Err(ProtoError::DecodeMismatch),
        },
        KeyKind::KGrid => match e.1 {
            ScalarV::Int(n) => if 0 <= n <= 255 {
                if acc.grid_type is Some {
                    Err(ProtoError::DuplicateField)
                } else {
                    Ok(ItemAccV { grid_type: Some(n as u8), ..acc })
                }
            } else {
                Err(ProtoError::DecodeMismatch)
            },
            ScalarV::Str(_) => Err(ProtoError::DecodeMismatch),
        },
        KeyKind::KWeapon => match e.1 {
            ScalarV::Int(n) => if 0 <= n <= 0xffff_ffff {
                if acc.weapon_perk is Some {
                    Err(ProtoError::DuplicateField)
                } else {
                    Ok(ItemAccV { weapon_perk: Some(n as u32), ..acc })
                }
            } else {
                Err(ProtoError::DecodeMismatch)
            },
            ScalarV::Str(_) => Err(ProtoError::DecodeMismatch),
        },
        KeyKind::KOther => {
            if has_key(acc.extra, e.0) {
                Err(ProtoError::DuplicateField)
            } else {
                Ok(ItemAccV { extra: acc.extra.push(e), ..acc })
            }
        },
    }
}

/// The item accumulator after the first `n` entries.
pub open spec fn item_fold(es: Seq<(Seq<u8>, ScalarV)>, n: int) -> Result<ItemAccV, ProtoError>
    decreases n,
{
    if n <= 0 {
        Ok(item_acc0())
    } else {
        match item_fold(es, n - 1) {
            Err(e) => Err(e),
            Ok(acc) => item_step(acc, es[n - 1]),
        }
    }
}

/// The item record of one section's entries: the folded accumulator,
/// rejected as incomplete when the identifier or the discriminant is unset
/// and as a schema mismatch when the mandatory `PicMap` is missing.
pub open spec fn item_of_entries_s(es: Seq<(Seq<u8>, ScalarV)>) -> Result<ProtoItemV, ProtoError> {
    match item_fold(es, es.len() as int) {
        Err(e) => Err(e),
        Ok(acc) => {
            if acc.proto_id is None || acc.ty is None {
                Err(ProtoError::IncompleteRecord)
            } else if acc.pic_map is None {
                Err(ProtoError::DecodeMismatch)
            } else {
                Ok(
                    ProtoItemV {
                        proto_id: acc.proto_id->Some_0,
                        ty: acc.ty->Some_0,
                        pic_map: acc.pic_map->Some_0,
                        pic_inv: acc.pic_inv,
                        flags: acc.flags,
                        grid_type: acc.grid_type,
                        weapon_perk: acc.weapon_perk,
                        extra_fields: acc.extra,
                    },
                )
            }
        },
    }
}

/// The critter identifier after the first `n` entries: only the identifier
/// key is declared; every other key is ignored.
pub open spec fn critter_step(acc: Option<u16>, e: (Seq<u8>, ScalarV)) -> Result<
    Option<u16>,
    ProtoError,
> {
    if key_kind_s(e.0) == KeyKind::KPid {
        match e.1 {
            ScalarV::Int(n) => if 0 <= n <= 65535 {
                if acc is Some {
                    Err(ProtoError::DuplicateField)
                } else if n == 0 {
                    Ok(acc)
                } else {
                    Ok(Some(n as u16))
                }
            } else {
                Err(ProtoError::DecodeMismatch)
            },
            ScalarV::Str(_) => Err(ProtoError::DecodeMismatch),
        }
    } else {
        Ok(acc)
    }
}

/// The critter accumulator after the first `n` entries.
pub open spec fn critter_fold(es: Seq<(Seq<u8>, ScalarV)>, n: int) -> Result<
    Option<u16>,
    ProtoError,
>
    decreases n,
{
    if n <= 0 {
        Ok(None)
    } else {
        match critter_fold(es, n - 1) {
            Err(e) => Err(e),
            Ok(acc) => critter_step(acc, es[n - 1]),
        }
    }
}

/// The critter record of one section's entries.
pub open spec fn critter_of_entries_s(es: Seq<(Seq<u8>, ScalarV)>) -> Result<
    ProtoCritterV,
    ProtoError,
> {
    match critter_fold(es, es.len() as int) {
        Err(e) => Err(e),
        Ok(acc) => match acc {
            Some(pid) => Ok(ProtoCritterV { proto_id: pid }),
            None => Err(ProtoError::IncompleteRecord),
        },
    }
}

proof fn lemma_item_fold_err(es: Seq<(Seq<u8>, ScalarV)>, n: int, m: int)
    requires
        item_fold(es, n) is Err,
        n <= m,
    ensures
        item_fold(es, m) == item_fold(es, n),
    decreases m - n,
{
    if m > n {
        lemma_item_fold_err(es, n, m - 1);
    }
}

proof fn lemma_critter_fold_err(es: Seq<(Seq<u8>, ScalarV)>, n: int, m: int)
    requires
        critter_fold(es, n) is Err,
        n <= m,
    ensures
        critter_fold(es, m) == critter_fold(es, n),
    decreases m - n,
{
    if m > n {
        lemma_critter_fold_err(es, n, m - 1);
    }
}

/// A record shape: a typed record with a unique numeric identifier,
/// decodable from the entries of one canonical section.
pub trait Proto: View + Sized {
    /// The identifier of a record value.
    spec fn pid_of(v: Self::V) -> u16;

    /// What decoding one section's entries yields.
    spec fn of_entries_s(es: Seq<(Seq<u8>, ScalarV)>) -> Result<Self::V, ProtoError>;

    /// The record's identifier.
    fn proto_id(&self) -> (r: u16)
        ensures
            r == Self::pid_of(self@),
    ;

    /// Decodes one section's entries into a record.
    fn of_entries(es: &Vec<(Vec<u8>, Scalar)>) -> (r: Result<Self, ProtoError>)
        ensures
            match r {
                Ok(t) => Self::of_entries_s(entries_view(es@)) == Ok::<Self::V, ProtoError>(t@),
                Err(e) => Self::of_entries_s(entries_view(es@)) == Err::<Self::V, ProtoError>(e),
            },
    ;
}

impl Proto for ProtoItem {
    open spec fn pid_of(v: ProtoItemV) -> u16 {
        v.proto_id
    }

    open spec fn of_entries_s(es: Seq<(Seq<u8>, ScalarV)>) -> Result<ProtoItemV, ProtoError> {
        item_of_entries_s(es)
    }

    fn proto_id(&self) -> (r: u16) {
        self.proto_id
    }

    fn of_entries(es: &Vec<(Vec<u8>, Scalar)>) -> (r: Result<Self, ProtoError>) {
        let ghost ev = entries_view(es@);
        let len = es.len();
        let mut proto_id: Option<u16> = None;
        let mut ty: Option<u8> = None;
        let mut pic_map: Option<Vec<u8>> = None;
        let mut pic_inv: Option<Vec<u8>> = None;
        let mut flags: Option<u32> = None;
        let mut grid_type: Option<u8> = None;
        let mut weapon_perk: Option<u32> = None;
        let mut extra: Vec<(Vec<u8>, Scalar)> = Vec::new();
        let mut i: usize = 0;
        proof {
            assert(entries_view(extra@) =~= Seq::<(Seq<u8>, ScalarV)>::empty());
        }
        while i < len
            invariant
                0 <= i <= len == es@.len(),
                ev == entries_view(es@),
                item_fold(ev, i as int) == Ok::<ItemAccV, ProtoError>(
                    ItemAccV {
                        proto_id: proto_id,
                        ty: ty,
                        pic_map: opt_bytes_view(pic_map),
                        pic_inv: opt_bytes_view(pic_inv),
                        flags: flags,
                        grid_type: grid_type,
                        weapon_perk: weapon_perk,
                        extra: entries_view(extra@),
                    },
                ),
            decreases len - i,
        {
            let ghost acc = item_fold(ev, i as int)->Ok_0;
            proof {
                assert(ev[i as int] == (es@[i as int].0@, es@[i as int].1@));
            }
            let kind = key_kind(es[i].0.as_slice());
            match kind {
                KeyKind::KPid => match &es[i].1 {
                    Scalar::Int(n) => {
                        let n = *n;
                        if !(0 <= n && n <= 65535) {
                            proof {
                                lemma_item_fold_err(ev, i as int + 1, len as int);
                            }
                            return Err(ProtoError::DecodeMismatch);
                        }
                        if proto_id.is_some() {
                            proof {
                                lemma_item_fold_err(ev, i as int + 1, len as int);
                            }
                            return Err(ProtoError::DuplicateField);
                        }
                        if n != 0 {
                            proto_id = Some(n as u16);
                        }
                    },
                    Scalar::Str(_) => {
                        proof {
                            lemma_item_fold_err(ev, i as int + 1, len as int);
                        }
                        return Err(ProtoError::DecodeMismatch);
                    },
                },
                KeyKind::KType => match &es[i].1 {
                    Scalar::Int(n) => {
                        let n = *n;
                        if !(0 <= n && n <= 255) {
                            proof {
                                lemma_item_fold_err(ev, i as int + 1, len as int);
                            }
                            return Err(ProtoError::DecodeMismatch);
                        }
                        if ty.is_some() {
                            proof {
                                lemma_item_fold_err(ev, i as int + 1, len as int);
                            }
                            return Err(ProtoError::DuplicateField);
                        }
                        if n != 0 {
                            ty = Some(n as u8);
                        }
                    },
                    Scalar::Str(_) => {
                        proof {
                            lemma_item_fold_err(ev, i as int + 1, len as int);
                        }
                        return Err(ProtoError::DecodeMismatch);
                    },
                },
                KeyKind::KPicMap => match &es[i].1 {
                    Scalar::Str(s) => {
                        if pic_map.is_some() {
                            proof {
                                lemma_item_fold_err(ev, i as int + 1, len as int);
                            }
                            return Err(ProtoError::DuplicateField);
                        }
                        pic_map = Some(clone_bytes(s.as_slice()));
                    },
                    Scalar::Int(_) => {
                        proof {
                            lemma_item_fold_err(ev, i as int + 1, len as int);
                        }
                        return Err(ProtoError::DecodeMismatch);
                    },
                },
                KeyKind::KPicInv => match &es[i].1 {
                    Scalar::Str(s) => {
                        if pic_inv.is_some() {
                            proof {
                                lemma_item_fold_err(ev, i as int + 1, len as int);
                            }
                            return Err(ProtoError::DuplicateField);
                        }
                        pic_inv = Some(clone_bytes(s.as_slice()));
                    },
                    Scalar::Int(_) => {
                        proof {
                            lemma_item_fold_err(ev, i as int + 1, len as int);
                        }
                        return Err(ProtoError::DecodeMismatch);
                    },
                },
                KeyKind::KFlags => match &es[i].1 {
                    Scalar::Int(n) => {
                        let n = *n;
                        if !(0 <= n && n <= 0xffff_ffff) {
                            proof {
                                lemma_item_fold_err(ev, i as int + 1, len as int);
                            }
                            return Err(ProtoError::DecodeMismatch);
                        }
                        if flags.is_some() {
                            proof {
                                lemma_item_fold_err(ev, i as int + 1, len as int);
                            }
                            return Err(ProtoError::DuplicateField);
                        }
                        flags = Some(n as u32);
                    },
                    Scalar::Str(_) => {
                        proof {
                            lemma_item_fold_err(ev, i as int + 1, len as int);
                        }
                        return Err(ProtoError::DecodeMismatch);
                    },
                },
                KeyKind::KGrid => match &es[i].1 {
                    Scalar::Int(n) => {
                        let n = *n;
                        if !(0 <= n && n <= 255) {
                            proof {
                                lemma_item_fold_err(ev, i as int + 1, len as int);
                            }
                            return Err(ProtoError::DecodeMismatch);
                        }
                        if grid_type.is_some() {
                            proof {
                                lemma_item_fold_err(ev, i as int + 1, len as int);
                            }
                            return Err(ProtoError::DuplicateField);
                        }
                        grid_type = Some(n as u8);
                    },
                    Scalar::Str(_) => {
                        proof {
                            lemma_item_fold_err(ev, i as int + 1, len as int);
                        }
                        return Err(ProtoError::DecodeMismatch);
                    },
                },
                KeyKind::KWeapon => match &es[i].1 {
                    Scalar::Int(n) => {
                        let n = *n;
                        if !(0 <= n && n <= 0xffff_ffff) {
                            proof {
                                lemma_item_fold_err(ev, i as int + 1, len as int);
                            }
                            return Err(ProtoError::DecodeMismatch);
                        }
                        if weapon_perk.is_some() {
                            proof {
                                lemma_item_fold_err(ev, i as int + 1, len as int);
                            }
                            return Err(ProtoError::DuplicateField);
                        }
                        weapon_perk = Some(n as u32);
                    },
                    Scalar::Str(_) => {
                        proof {
                            lemma_item_fold_err(ev, i as int + 1, len as int);
                        }
                        return Err(ProtoError::DecodeMismatch);
                    },
                },
                KeyKind::KOther => {
                    if crate::toml_de::entries_have_key(&extra, es[i].0.as_slice()) {
                        proof {
                            lemma_item_fold_err(ev, i as int + 1, len as int);
                        }
                        return Err(ProtoError::DuplicateField);
                    }
                    let k = clone_bytes(es[i].0.as_slice());
                    let sc = clone_scalar(&es[i].1);
                    let ghost kv = (k@, sc@);
                    extra.push((k, sc));
                    proof {
                        assert(entries_view(extra@) =~= acc.extra.push(kv));
                        assert(kv == ev[i as int]);
                    }
                },
            }
            i = i + 1;
        }
        let acc_pid = proto_id;
        let acc_ty = ty;
        if acc_pid.is_none() || acc_ty.is_none() {
            return Err(ProtoError::IncompleteRecord);
        }
        match pic_map {
            None => Err(ProtoError::DecodeMismatch),
            Some(pm) => {
                let r = ProtoItem {
                    proto_id: match acc_pid {
                        Some(p) => p,
                        None => 0,
                    },
                    ty: match acc_ty {
                        Some(t) => t,
                        None => 0,
                    },
                    pic_map: pm,
                    pic_inv,
                    flags,
                    grid_type,
                    weapon_perk,
                    extra_fields: extra,
                };
                Ok(r)
            },
        }
    }
}

impl Proto for ProtoCritter {
    open spec fn pid_of(v: ProtoCritterV) -> u16 {
        v.proto_id
    }

    open spec fn of_entries_s(es: Seq<(Seq<u8>, ScalarV)>) -> Result<ProtoCritterV, ProtoError> {
        critter_of_entries_s(es)
    }

    fn proto_id(&self) -> (r: u16) {
        self.proto_id
    }

    fn of_entries(es: &Vec<(Vec<u8>, Scalar)>) -> (r: Result<Self, ProtoError>) {
        let ghost ev = entries_view(es@);
        let len = es.len();
        let mut proto_id: Option<u16> = None;
        let mut i: usize = 0;
        while i < len
            invariant
                0 <= i <= len == es@.len(),
                ev == entries_view(es@),
                critter_fold(ev, i as int) == Ok::<Option<u16>, ProtoError>(proto_id),
            decreases len - i,
        {
            proof {
                assert(ev[i as int] == (es@[i as int].0@, es@[i as int].1@));
            }
            let kind = key_kind(es[i].0.as_slice());
            if kind == KeyKind::KPid {
                match &es[i].1 {
                    Scalar::Int(n) => {
                        let n = *n;
                        if !(0 <= n && n <= 65535) {
                            proof {
                                lemma_critter_fold_err(ev, i as int + 1, len as int);
                            }
                            return Err(ProtoError::DecodeMismatch);
                        }
                        if proto_id.is_some() {
                            proof {
                                lemma_critter_fold_err(ev, i as int + 1, len as int);
                            }
                            return Err(ProtoError::DuplicateField);
                        }
                        if n != 0 {
                            proto_id = Some(n as u16);
                        }
                    },
                    Scalar::Str(_) => {
                        proof {
                            lemma_critter_fold_err(ev, i as int + 1, len as int);
                        }
                        return Err(ProtoError::DecodeMismatch);
                    },
                }
            }
            i = i + 1;
        }
        match proto_id {
            Some(pid) => Ok(ProtoCritter { proto_id: pid }),
            None => Err(ProtoError::IncompleteRecord),
        }
    }
}

/// The decoded records of one source file, in order of appearance.
#[derive(Debug, Clone, PartialEq, Eq)]
pub struct Protos<T> {
    pub values: Vec<T>,
}

impl<T: View> View for Protos<T> {
    type V = Seq<T::V>;

    open spec fn view(&self) -> Seq<T::V> {
        self.values@.map_values(|t: T| t@)
    }
}

/// The records of the first `n` sections, with the section name (canonical
/// or alias) under which they were found: a section under the other name
/// once one is in use is a duplicate of the record array; a section under
/// any other name is ignored.
pub open spec fn protos_fold<T: Proto>(secs: Seq<crate::toml_de::SectionV>, n: int) -> Result<
    (Seq<T::V>, Option<Seq<u8>>),
    ProtoError,
>
    decreases n,
{
    if n <= 0 {
        Ok((Seq::empty(), None))
    } else {
        match protos_fold::<T>(secs, n - 1) {
            Err(e) => Err(e),
            Ok((vs, used)) => {
                let s = secs[n - 1];
                if s.name == k_proto() || s.name == k_critter_proto() {
                    if used matches Some(u) && u != s.name {
                        Err(ProtoError::DuplicateField)
                    } else {
                        match T::of_entries_s(s.entries) {
                            Err(e) => Err(e),
                            Ok(v) => Ok((vs.push(v), Some(s.name))),
                        }
                    }
                } else {
                    Ok((vs, used))
                }
            },
        }
    }
}

/// The record list of a whole canonical document.
pub open spec fn proto_from_toml_s<T: Proto>(t: Seq<u8>) -> Result<Seq<T::V>, ProtoError> {
    match crate::toml_de::parse_doc_s(t) {
        Err(e) => Err(e),
        Ok(secs) => match protos_fold::<T>(secs, secs.len() as int) {
            Err(e) => Err(e),
            Ok((vs, _)) => Ok(vs),
        },
    }
}

proof fn lemma_protos_fold_err<T: Proto>(secs: Seq<crate::toml_de::SectionV>, n: int, m: int)
    requires
        protos_fold::<T>(secs, n) is Err,
        n <= m,
    ensures
        protos_fold::<T>(secs, m) == protos_fold::<T>(secs, n),
    decreases m - n,
{
    if m > n {
        lemma_protos_fold_err::<T>(secs, n, m - 1);
    }
}

/// Decodes a canonical document into the records of one shape.
pub fn proto_from_toml<T: Proto>(text: &[u8]) -> (r: Result<Protos<T>, ProtoError>)
    ensures
        match r {
            Ok(ps) => proto_from_toml_s::<T>(text@) == Ok::<Seq<T::V>, ProtoError>(ps@),
            Err(e) => proto_from_toml_s::<T>(text@) == Err::<Seq<T::V>, ProtoError>(e),
        },
{
    let secs = match crate::toml_de::parse_doc(text) {
        Ok(secs) => secs,
        Err(e) => {
            return Err(e);
        },
    };
    let ghost sv = crate::toml_de::secs_view(secs@);
    let n = secs.len();
    let mut values: Vec<T> = Vec::new();
    let mut used: Option<bool> = None;
    let mut i: usize = 0;
    proof {
        assert(values@.map_values(|t: T| t@) =~= Seq::<T::V>::empty());
    }
    while i < n
        invariant
            0 <= i <= n == secs@.len(),
            sv == crate::toml_de::secs_view(secs@),
            crate::toml_de::parse_doc_s(text@) == Ok::<Seq<crate::toml_de::SectionV>, ProtoError>(
                sv,
            ),
            protos_fold::<T>(sv, i as int) == Ok::<(Seq<T::V>, Option<Seq<u8>>), ProtoError>(
                (
                    values@.map_values(|t: T| t@),
                    match used {
                        None => None,
                        Some(true) => Some(k_proto()),
                        Some(false) => Some(k_critter_proto()),
                    },
                ),
            ),
        decreases n - i,
    {
        let ghost stv = protos_fold::<T>(sv, i as int)->Ok_0;
        proof {
            assert(sv[i as int] == secs@[i as int]@);
            assert(k_proto() != k_critter_proto()) by {
                assert(k_proto().len() == 5);
                assert(k_critter_proto().len() == 13);
            }
        }
        let is_proto = bytes_eq(secs[i].name.as_slice(), kv_proto().as_slice());
        let is_critter = bytes_eq(secs[i].name.as_slice(), kv_critter_proto().as_slice());
        if is_proto || is_critter {
            let clash = match used {
                None => false,
                Some(u) => u != is_proto,
            };
            if clash {
                proof {
                    lemma_protos_fold_err::<T>(sv, i as int + 1, n as int);
                }
                return Err(ProtoError::DuplicateField);
            }
            match T::of_entries(&secs[i].entries) {
                Err(e) => {
                    proof {
                        lemma_protos_fold_err::<T>(sv, i as int + 1, n as int);
                    }
                    return Err(e);
                },
                Ok(t) => {
                    let ghost tv = t@;
                    values.push(t);
                    used = Some(is_proto);
                    proof {
                        assert(values@.map_values(|t: T| t@) =~= stv.0.push(tv));
                    }
                },
            }
        }
        i = i + 1;
    }
    Ok(Protos { values })
}

/// Translates one source-dialect document and decodes the result.
pub open spec fn proto_from_ini_s<T: Proto>(ini: Seq<u8>) -> Result<Seq<T::V>, ProtoError> {
    match crate::ini_to_toml::translate_s(ini, false) {
        Err(e) => Err(crate::ini_to_toml::translate_err(e)),
        Ok(toml) => proto_from_toml_s::<T>(toml),
    }
}

/// Runs the translator and the decoder on one source-dialect document.
pub fn proto_from_ini<T: Proto>(ini: &[u8]) -> (r: Result<Protos<T>, ProtoError>)
    ensures
        match r {
            Ok(ps) => proto_from_ini_s::<T>(ini@) == Ok::<Seq<T::V>, ProtoError>(ps@),
            Err(e) => proto_from_ini_s::<T>(ini@) == Err::<Seq<T::V>, ProtoError>(e),
        },
{
    match crate::ini_to_toml::translate(ini, false) {
        Err(e) => Err(e),
        Ok(toml) => proto_from_toml::<T>(toml.as_slice()),
    }
}

/// Copies a byte slice.
pub fn clone_bytes(v: &[u8]) -> (r: Vec<u8>)
    ensures
        r@ == v@,
{
    let mut r: Vec<u8> = Vec::new();
    crate::text::push_bytes(&mut r, v);
    r
}

/// Copies a scalar.
pub fn clone_scalar(s: &Scalar) -> (r: Scalar)
    ensures
        r@ == s@,
{
    match s {
        Scalar::Int(n) => Scalar::Int(*n),
        Scalar::Str(v) => Scalar::Str(clone_bytes(v.as_slice())),
    }
}

} // verus!
