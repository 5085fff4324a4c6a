//! Choosing the temperature sensor to follow among the thermal zones that
//! the system lists.
use vstd::prelude::*;

use crate::text::{chars_of, contains, contains_seq, trim, trimmed};

verus! {

/// One listed thermal zone: the text of its `type` file, where it could be
/// read, and whether it has a `temp` file.
pub struct SensorEntry {
    pub kind: Option<String>,
    pub has_temp: bool,
}

/// A zone type that names a CPU package sensor: after trimming, it contains
/// `"x86_pkg"`, `"k10temp"` or `"coretemp"`.
pub open spec fn cpu_sensor_kind(t: Seq<char>) -> bool {
    ||| contains_seq(trim(t), "x86_pkg"@)
    ||| contains_seq(trim(t), "k10temp"@)
    ||| contains_seq(trim(t), "coretemp"@)
}

/// A zone type names a CPU sensor exactly when its trimmed text contains
/// `"x86_pkg"`, `"k10temp"` or `"coretemp"`; any other type, such as a
/// chipset or wireless sensor, does not.
pub proof fn law_cpu_sensor_names(t: Seq<char>)
    ensures
        cpu_sensor_kind(t) <==> (contains_seq(trim(t), "x86_pkg"@) || contains_seq(
            trim(t),
            "k10temp"@,
        ) || contains_seq(trim(t), "coretemp"@)),
        !contains_seq(trim(t), "x86_pkg"@) && !contains_seq(trim(t), "k10temp"@)
            && !contains_seq(trim(t), "coretemp"@) ==> !cpu_sensor_kind(t),
{
}

/// Whether a zone's type text names a CPU package sensor.
pub fn is_cpu_sensor_type(t: &str) -> (r: bool)
    ensures
        r == cpu_sensor_kind(t@),
        r <==> (contains_seq(trim(t@), "x86_pkg"@) || contains_seq(trim(t@), "k10temp"@)
            || contains_seq(trim(t@), "coretemp"@)),
{
    proof {
        law_cpu_sensor_names(t@);
    }
    let cs = chars_of(t);
    let tt = trimmed(&cs);
    let a = chars_of("x86_pkg");
    let b = chars_of("k10temp");
    let c = chars_of("coretemp");
    contains(&tt, &a) || contains(&tt, &b) || contains(&tt, &c)
}

/// A zone that is preferred: its type could be read and names a CPU package
/// sensor, and it has a `temp` file.
pub open spec fn preferred(e: SensorEntry) -> bool {
    &&& e.has_temp
    &&& match e.kind {
        Some(t) => cpu_sensor_kind(t@),
        None => false,
    }
}

/// The zone to read temperatures from: the first preferred zone; where there
/// is none, the first zone with a `temp` file; where there is none either,
/// no zone.
pub open spec fn sensor_choice_ok(es: Seq<SensorEntry>, r: Option<usize>) -> bool {
    match r {
        Some(i) => {
            &&& i < es.len()
            &&& es[i as int].has_temp
            &&& if preferred(es[i as int]) {
                forall|j: int| 0 <= j < i ==> !preferred(#[trigger] es[j])
            } else {
                &&& forall|j: int| 0 <= j < es.len() ==> !preferred(#[trigger] es[j])
                &&& forall|j: int| 0 <= j < i ==> !(#[trigger] es[j]).has_temp
            }
        },
        None => forall|j: int| 0 <= j < es.len() ==> !(#[trigger] es[j]).has_temp,
    }
}

/// Chooses the zone to read temperatures from, as [`sensor_choice_ok`]
/// describes.
pub fn choose_temp_sensor(entries: &Vec<SensorEntry>) -> (r: Option<usize>)
    ensures
        sensor_choice_ok(entries@, r),
{
    let mut i: usize = 0;
    while i < entries.len()
        invariant
            i <= entries.len(),
            forall|j: int| 0 <= j < i ==> !preferred(#[trigger] entries@[j]),
        decreases entries.len() - i,
    {
        let e = &entries[i];
        if e.has_temp {
            match &e.kind {
                Some(t) => {
                    if is_cpu_sensor_type(t.as_str()) {
                        return Some(i);
                    }
                },
                None => {},
            }
        }
        i = i + 1;
    }
    let mut k: usize = 0;
    while k < entries.len()
        invariant
            k <= entries.len(),
            forall|j: int| 0 <= j < entries.len() ==> !preferred(#[trigger] entries@[j]),
            forall|j: int| 0 <= j < k ==> !(#[trigger] entries@[j]).has_temp,
        decreases entries.len() - k,
    {
        if entries[k].has_temp {
            return Some(k);
        }
        k = k + 1;
    }
    None
}

} // verus!
