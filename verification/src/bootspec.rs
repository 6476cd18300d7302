//! The boot specification of a generation: a base record and, under their
//! names, the records of its specialisations, which are specifications of
//! the same shape.

use vstd::prelude::*;
use crate::path::{join, join_path};
use crate::text::{opt_text, same_text, texts};

verus! {

/// What it takes to boot one system.
#[derive(Debug, PartialEq, Eq)]
pub struct BootSpec {
    pub system: String,
    pub init: String,
    pub kernel: String,
    pub kernel_params: Vec<String>,
    pub label: String,
    pub toplevel: String,
    pub initrd: Option<String>,
    pub initrd_secrets: Option<String>,
    /// The specialisations by name; no name occurs twice.
    pub specialisations: Vec<(String, BootSpec)>,
}

/// A generation's descriptor as it is read: the base record under its
/// versioned key, and the descriptors of the specialisations by name.
#[derive(Debug, PartialEq, Eq)]
pub struct BootJson {
    pub bootspec: BootSpecV1,
    pub specialisation: Vec<(String, BootJson)>,
}

/// The base record of a descriptor.
#[derive(Debug, PartialEq, Eq)]
pub struct BootSpecV1 {
    pub system: String,
    pub init: String,
    pub kernel: String,
    pub kernel_params: Vec<String>,
    pub label: String,
    pub toplevel: String,
    pub initrd: Option<String>,
    pub initrd_secrets: Option<String>,
}

/// Why a descriptor is not accepted.
#[derive(Debug, Clone, Copy, PartialEq, Eq, Structural)]
pub enum DescriptorError {
    /// Two specialisations of one record have the same name.
    DuplicateSpecialisation,
}

/// The fields that a record has of its own.
pub struct BaseRecord {
    pub system: Seq<char>,
    pub init: Seq<char>,
    pub kernel: Seq<char>,
    pub kernel_params: Seq<Seq<char>>,
    pub label: Seq<char>,
    pub toplevel: Seq<char>,
    pub initrd: Option<Seq<char>>,
    pub initrd_secrets: Option<Seq<char>>,
}

/// The view of a [`BootSpec`].
pub struct BootRecord {
    pub base: BaseRecord,
    pub specialisations: Seq<(Seq<char>, BootRecord)>,
}

/// The view of a [`BootJson`].
pub struct Descriptor {
    pub bootspec: BaseRecord,
    pub specialisation: Seq<(Seq<char>, Descriptor)>,
}

impl View for BootSpecV1 {
    type V = BaseRecord;

    open spec fn view(&self) -> BaseRecord {
        BaseRecord {
            system: self.system@,
            init: self.init@,
            kernel: self.kernel@,
            kernel_params: texts(self.kernel_params@),
            label: self.label@,
            toplevel: self.toplevel@,
            initrd: opt_text(self.initrd),
            initrd_secrets: opt_text(self.initrd_secrets),
        }
    }
}

/// The view of a descriptor.
pub open spec fn descriptor_of(json: BootJson) -> Descriptor
    decreases json,
{
    Descriptor {
        bootspec: json.bootspec@,
        specialisation: Seq::new(
            json.specialisation.len() as nat,
            |i: int|
                if 0 <= i < json.specialisation.len() {
                    (json.specialisation[i].0@, descriptor_of(json.specialisation[i].1))
                } else {
                    arbitrary()
                },
        ),
    }
}

/// The view of a boot specification.
pub open spec fn boot_record_of(spec: BootSpec) -> BootRecord
    decreases spec,
{
    BootRecord {
        base: BaseRecord {
            system: spec.system@,
            init: spec.init@,
            kernel: spec.kernel@,
            kernel_params: texts(spec.kernel_params@),
            label: spec.label@,
            toplevel: spec.toplevel@,
            initrd: opt_text(spec.initrd),
            initrd_secrets: opt_text(spec.initrd_secrets),
        },
        specialisations: Seq::new(
            spec.specialisations.len() as nat,
            |i: int|
                if 0 <= i < spec.specialisations.len() {
                    (spec.specialisations[i].0@, boot_record_of(spec.specialisations[i].1))
                } else {
                    arbitrary()
                },
        ),
    }
}

impl View for BootJson {
    type V = Descriptor;

    open spec fn view(&self) -> Descriptor {
        descriptor_of(*self)
    }
}

impl View for BootSpec {
    type V = BootRecord;

    open spec fn view(&self) -> BootRecord {
        boot_record_of(*self)
    }
}

/// The record that a descriptor describes: the same fields and the same
/// specialisations under the same names, in the same order, without the
/// versioned keys.
pub open spec fn record_of(d: Descriptor) -> BootRecord
    decreases d,
{
    BootRecord {
        base: d.bootspec,
        specialisations: Seq::new(
            d.specialisation.len(),
            |i: int|
                if 0 <= i < d.specialisation.len() {
                    (d.specialisation[i].0, record_of(d.specialisation[i].1))
                } else {
                    arbitrary()
                },
        ),
    }
}

/// Whether no record of `d`, at any depth, has two specialisations of one
/// name.
pub open spec fn distinct_names(d: Descriptor) -> bool
    decreases d,
{
    &&& forall|i: int, j: int|
        0 <= i < j < d.specialisation.len() ==> (#[trigger] d.specialisation[i]).0
            != (#[trigger] d.specialisation[j]).0
    &&& forall|i: int|
        0 <= i < d.specialisation.len() ==> distinct_names((#[trigger] d.specialisation[i]).1)
}

/// Name of the descriptor inside a generation's directory.
pub const DESCRIPTOR_FILE: &'static str = "boot.json";

/// Where the descriptor of the generation at `system_path` lies.
pub fn descriptor_path(system_path: &str) -> (r: String)
    ensures
        r@ == join(system_path@, DESCRIPTOR_FILE@),
{
    join_path(system_path, DESCRIPTOR_FILE)
}

/// Whether one of `entries` stands under `name`.
fn has_name(entries: &Vec<(String, BootSpec)>, name: &str) -> (r: bool)
    ensures
        r == exists|i: int| 0 <= i < entries.len() && (#[trigger] entries[i]).0@ == name@,
{
    let mut i: usize = 0;
    while i < entries.len()
        invariant
            i <= entries.len(),
            forall|k: int| 0 <= k < i ==> (#[trigger] entries[k]).0@ != name@,
        decreases entries.len() - i,
    {
        if same_text(entries[i].0.as_str(), name) {
            return true;
        }
        i += 1;
    }
    false
}

impl BootSpec {
    /// Builds the specification that the descriptor `boot_json` describes:
    /// [`record_of`] its view. A descriptor in which two specialisations of
    /// one record share a name describes none.
    pub fn from_boot_json(boot_json: BootJson) -> (r: Result<BootSpec, DescriptorError>)
        ensures
            match r {
                Ok(spec) => distinct_names(boot_json@) && spec@ == record_of(boot_json@),
                Err(e) => !distinct_names(boot_json@) && e == DescriptorError::DuplicateSpecialisation,
            },
        decreases boot_json,
    {
        let ghost d = boot_json@;
        let ghost items = boot_json.specialisation@;
        let BootJson { bootspec, specialisation } = boot_json;
        let mut specialisations: Vec<(String, BootSpec)> = Vec::new();
        assert forall|k: int| 0 <= k < items.len() implies #[trigger] d.specialisation[k] == (
            items[k].0@,
            items[k].1@,
        ) by {}
        for entry in it: specialisation
            invariant
                it.seq() == items,
                d == boot_json@,
                items == boot_json.specialisation@,
                d.specialisation.len() == items.len(),
                forall|k: int|
                    0 <= k < items.len() ==> #[trigger] d.specialisation[k] == (
                        items[k].0@,
                        items[k].1@,
                    ),
                specialisations.len() == it.index(),
                forall|k: int|
                    0 <= k < specialisations.len() ==> (#[trigger] specialisations[k]).0@
                        == d.specialisation[k].0 && specialisations[k].1@ == record_of(
                        d.specialisation[k].1,
                    ) && distinct_names(d.specialisation[k].1),
                forall|k: int, l: int|
                    0 <= k < l < specialisations.len() ==> (#[trigger] d.specialisation[k]).0
                        != (#[trigger] d.specialisation[l]).0,
        {
            let ghost at = specialisations.len() as int;
            let (name, sub) = entry;
            assert(name@ == d.specialisation[at].0);
            assert(sub@ == d.specialisation[at].1);
            if has_name(&specialisations, name.as_str()) {
                proof {
                    let k = choose|k: int|
                        0 <= k < specialisations.len() && (#[trigger] specialisations[k]).0@
                            == name@;
                    assert(d.specialisation[k].0 == d.specialisation[at].0);
                }
                return Err(DescriptorError::DuplicateSpecialisation);
            }
            let spec = match BootSpec::from_boot_json(sub) {
                Ok(spec) => spec,
                Err(e) => {
                    assert(!distinct_names(d.specialisation[at].1));
                    return Err(e);
                },
            };
            proof {
                assert forall|k: int| 0 <= k < at implies (#[trigger] d.specialisation[k]).0
                    != d.specialisation[at].0 by {
                    assert(specialisations[k].0@ == d.specialisation[k].0);
                }
            }
            specialisations.push((name, spec));
        }
        assert(specialisations.len() == d.specialisation.len());
        let r = BootSpec {
            system: bootspec.system,
            init: bootspec.init,
            kernel: bootspec.kernel,
            kernel_params: bootspec.kernel_params,
            label: bootspec.label,
            toplevel: bootspec.toplevel,
            initrd: bootspec.initrd,
            initrd_secrets: bootspec.initrd_secrets,
            specialisations,
        };
        proof {
            assert forall|k: int| 0 <= k < d.specialisation.len() implies distinct_names(
                (#[trigger] d.specialisation[k]).1,
            ) by {
                assert(specialisations[k].0@ == d.specialisation[k].0);
            }
            assert(distinct_names(d));
            assert forall|k: int| 0 <= k < d.specialisation.len() implies #[trigger] r@.specialisations[k]
                == record_of(d).specialisations[k] by {
                assert(specialisations[k].0@ == d.specialisation[k].0);
            }
            assert(r@.specialisations =~= record_of(d).specialisations);
            assert(r@.base == d.bootspec);
        }
        Ok(r)
    }
}

/// The descriptor that describes the record `r`.
pub open spec fn descriptor_for(r: BootRecord) -> Descriptor
    decreases r,
{
    Descriptor {
        bootspec: r.base,
        specialisation: Seq::new(
            r.specialisations.len(),
            |i: int|
                if 0 <= i < r.specialisations.len() {
                    (r.specialisations[i].0, descriptor_for(r.specialisations[i].1))
                } else {
                    arbitrary()
                },
        ),
    }
}

/// The specialisation of `r` that stands under `name`, if there is one.
pub open spec fn specialisation(r: BootRecord, name: Seq<char>) -> Option<BootRecord> {
    if exists|i: int| 0 <= i < r.specialisations.len() && (#[trigger] r.specialisations[i]).0 == name {
        let i = choose|i: int|
            0 <= i < r.specialisations.len() && (#[trigger] r.specialisations[i]).0 == name;
        Some(r.specialisations[i].1)
    } else {
        None
    }
}

/// Every specialisation of a descriptor is found again in the record, under
/// its name and converted in full; the record has no others.
pub proof fn lemma_specialisations_recovered(d: Descriptor)
    requires
        distinct_names(d),
    ensures
        record_of(d).base == d.bootspec,
        record_of(d).specialisations.len() == d.specialisation.len(),
        forall|i: int|
            0 <= i < d.specialisation.len() ==> specialisation(
                record_of(d),
                (#[trigger] d.specialisation[i]).0,
            ) == Some(record_of(d.specialisation[i].1)),
        forall|name: Seq<char>|
            (#[trigger] specialisation(record_of(d), name)) is Some ==> exists|i: int|
                0 <= i < d.specialisation.len() && (#[trigger] d.specialisation[i]).0 == name,
{
    let r = record_of(d);
    assert forall|i: int| 0 <= i < d.specialisation.len() implies specialisation(
        r,
        (#[trigger] d.specialisation[i]).0,
    ) == Some(record_of(d.specialisation[i].1)) by {
        let name = d.specialisation[i].0;
        assert(r.specialisations[i].0 == name);
        let k = choose|k: int|
            0 <= k < r.specialisations.len() && (#[trigger] r.specialisations[k]).0 == name;
        assert(d.specialisation[k].0 == d.specialisation[i].0);
        assert(k == i);
    }
    assert forall|name: Seq<char>| (#[trigger] specialisation(r, name)) is Some implies exists|
        i: int,
    |
        0 <= i < d.specialisation.len() && (#[trigger] d.specialisation[i]).0 == name by {
        let k = choose|k: int|
            0 <= k < r.specialisations.len() && (#[trigger] r.specialisations[k]).0 == name;
        assert(d.specialisation[k].0 == name);
    }
}

/// Nothing is lost between a descriptor and its record, at any depth: the
/// descriptor can be written back from the record.
pub proof fn lemma_descriptor_round_trip(d: Descriptor)
    ensures
        descriptor_for(record_of(d)) == d,
    decreases d,
{
    let back = descriptor_for(record_of(d));
    assert forall|i: int| 0 <= i < d.specialisation.len() implies #[trigger] back.specialisation[i]
        == d.specialisation[i] by {
        lemma_descriptor_round_trip(d.specialisation[i].1);
    }
    assert(back.specialisation =~= d.specialisation);
}

/// Every record, of any depth, is the record of the descriptor written for
/// it.
pub proof fn lemma_record_round_trip(r: BootRecord)
    ensures
        record_of(descriptor_for(r)) == r,
    decreases r,
{
    let back = record_of(descriptor_for(r));
    assert forall|i: int| 0 <= i < r.specialisations.len() implies #[trigger] back.specialisations[i]
        == r.specialisations[i] by {
        lemma_record_round_trip(r.specialisations[i].1);
    }
    assert(back.specialisations =~= r.specialisations);
}

} // verus!
