//! Reading INI documents, delegated to the `rust-ini` crate.

use vstd::prelude::*;
use ini::ParseError as IniParseError;
use crate::error::Error;
use crate::value::{Value, ValueMap, ValueModel, map_insert};

verus! {

broadcast use crate::value::lemma_value_model;

#[verifier::external_type_specification]
#[verifier::external_body]
pub struct ExIniParseError(IniParseError);

/// One section of an INI document: its name (`None` for the properties
/// before the first section header) and its properties in document order.
pub struct IniSection {
    pub name: Option<String>,
    pub properties: Vec<(String, String)>,
}

/// The texts of a section's name and properties.
pub open spec fn section_model(s: IniSection) -> (Option<Seq<char>>, Seq<(Seq<char>, Seq<char>)>) {
    (
        match s.name {
            Some(n) => Some(n@),
            None => None,
        },
        s.properties@.map_values(|p: (String, String)| (p.0@, p.1@)),
    )
}

/// What `rust-ini` reads from a text with its default options
/// (`Ini::load_from_str`): `None` when the text is rejected, otherwise the
/// sections in order, each with its name and its properties in order. A
/// function of the text alone.
pub uninterp spec fn ini_sections(content: Seq<char>) -> Option<Seq<(Option<Seq<char>>, Seq<(Seq<char>, Seq<char>)>)>>;

/// `Ini::load_from_str`, with the document's sections and properties copied
/// out in the order `Ini::iter` and `Properties::iter` give them.
#[verifier::external_body]
pub(crate) fn ini_load(content: &str) -> (r: Result<Vec<IniSection>, IniParseError>)
    ensures
        r is Ok <==> ini_sections(content@) is Some,
        r matches Ok(d) ==> d@.map_values(|s: IniSection| section_model(s)) == ini_sections(content@)->Some_0,
{
    ini::Ini::load_from_str(content).map(|doc| {
        doc.iter().map(|(name, props)| IniSection {
            name: name.map(|n| n.to_string()),
            properties: props.iter().map(|(k, v)| (k.to_string(), v.to_string())).collect(),
        }).collect()
    })
}


/// `acc` with the first `k` properties inserted as string values.
pub open spec fn insert_properties(acc: Seq<(Seq<char>, ValueModel)>, props: Seq<(Seq<char>, Seq<char>)>, k: nat) -> Seq<(Seq<char>, ValueModel)>
    decreases k,
{
    if k == 0 || k > props.len() {
        acc
    } else {
        map_insert(insert_properties(acc, props, (k - 1) as nat), props[k - 1].0, ValueModel::String(props[k - 1].1))
    }
}

/// The top-level entries of the first `k` sections: the properties outside
/// any section are top-level keys; each named section is a key whose value is
/// an object of its properties. Every value is a string.
pub open spec fn ini_entries(sections: Seq<(Option<Seq<char>>, Seq<(Seq<char>, Seq<char>)>)>, k: nat) -> Seq<(Seq<char>, ValueModel)>
    decreases k,
{
    if k == 0 || k > sections.len() {
        Seq::empty()
    } else {
        let acc = ini_entries(sections, (k - 1) as nat);
        let props = sections[k - 1].1;
        match sections[k - 1].0 {
            None => insert_properties(acc, props, props.len()),
            Some(name) => map_insert(acc, name, ValueModel::Object(insert_properties(Seq::empty(), props, props.len()))),
        }
    }
}

/// Inserts a section's properties into `m` as string values.
fn add_properties(m: &mut ValueMap, props: &Vec<(String, String)>)
    ensures
        final(m)@ == insert_properties(old(m)@, props@.map_values(|p: (String, String)| (p.0@, p.1@)), props@.len()),
{
    let ghost pm = props@.map_values(|p: (String, String)| (p.0@, p.1@));
    let ghost start = m@;
    let mut i: usize = 0;
    while i < props.len()
        invariant
            i <= props@.len(),
            pm == props@.map_values(|p: (String, String)| (p.0@, p.1@)),
            m@ == insert_properties(start, pm, i as nat),
        decreases props@.len() - i,
    {
        let k = props[i].0.clone();
        let v = props[i].1.clone();
        assert(pm[i as int] == (props@[i as int].0@, props@[i as int].1@));
        m.insert(k, Value::String(v));
        i = i + 1;
    }
}

/// Parses an INI document: properties outside any section become top-level
/// keys, each section an object of its properties; every value is a string.
/// Fails with `Error::Ini` when `rust-ini` rejects the text.
pub fn parse_ini(content: &str) -> (r: Result<Value, Error>)
    ensures
        match ini_sections(content@) {
            Some(secs) => r matches Ok(v) && v@ == ValueModel::Object(ini_entries(secs, secs.len())),
            None => r matches Err(e) && e is Ini,
        },
{
    match ini_load(content) {
        Err(e) => Err(Error::Ini(e)),
        Ok(doc) => {
            let ghost secs = ini_sections(content@)->Some_0;
            let mut top = ValueMap::new();
            let mut i: usize = 0;
            assert(top@ =~= ini_entries(secs, 0));
            while i < doc.len()
                invariant
                    i <= doc@.len(),
                    doc@.map_values(|s: IniSection| section_model(s)) == secs,
                    top@ == ini_entries(secs, i as nat),
                decreases doc@.len() - i,
            {
                assert(secs[i as int] == section_model(doc@[i as int]));
                let sec = &doc[i];
                match &sec.name {
                    None => {
                        add_properties(&mut top, &sec.properties);
                    },
                    Some(n) => {
                        let mut inner = ValueMap::new();
                        add_properties(&mut inner, &sec.properties);
                        top.insert(n.clone(), Value::Object(inner));
                    },
                }
                i = i + 1;
            }
            Ok(Value::Object(top))
        },
    }
}

} // verus!
