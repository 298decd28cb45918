//! The label under which a stop is shown.
//!
//! Attaching takes any formatter. The one here writes the name of the
//! stop, then in brackets the names of the regions around it, then the
//! country codes where the regions lie in more than one country.

use vstd::prelude::*;
use vstd::string::StringExecFns;
use crate::string_set::texts;

verus! {

/// The items in their order with the separator between each two.
pub open spec fn joined(items: Seq<Seq<char>>, separator: Seq<char>) -> Seq<char>
    decreases items.len(),
{
    if items.len() == 0 {
        Seq::empty()
    } else if items.len() == 1 {
        items[0]
    } else {
        joined(items.drop_last(), separator) + separator + items.last()
    }
}

/// The names of the regions in brackets after a space; nothing where there
/// is no region.
pub open spec fn regions_part(region_names: Seq<Seq<char>>) -> Seq<char> {
    if region_names.len() == 0 {
        Seq::empty()
    } else {
        " ("@ + joined(region_names, ", "@) + ")"@
    }
}

/// The country codes after a comma; nothing where there is one country or
/// none.
pub open spec fn countries_part(country_codes: Seq<Seq<char>>) -> Seq<char> {
    if country_codes.len() <= 1 {
        Seq::empty()
    } else {
        ", "@ + joined(country_codes, "/"@)
    }
}

/// The label of a stop.
pub open spec fn label_text(
    name: Seq<char>,
    region_names: Seq<Seq<char>>,
    country_codes: Seq<Seq<char>>,
) -> Seq<char> {
    name + regions_part(region_names) + countries_part(country_codes)
}

/// The label of a stop without regions is its name.
pub proof fn lemma_label_without_regions(name: Seq<char>)
    ensures
        label_text(name, Seq::empty(), Seq::empty()) == name,
{
    assert(name + Seq::<char>::empty() + Seq::<char>::empty() =~= name);
}

/// Adds the items to the text, with the separator between each two.
fn append_joined(text: &mut String, items: &Vec<String>, separator: &str)
    ensures
        final(text)@ == old(text)@ + joined(texts(items@), separator@),
{
    let ghost start = text@;
    let ghost all = texts(items@);
    let n: usize = items.len();
    let mut i: usize = 0;
    assert(start + joined(all.take(0), separator@) =~= start);
    while i < n
        invariant
            i <= n,
            n == items@.len(),
            all == texts(items@),
            text@ == start + joined(all.take(i as int), separator@),
        decreases n - i,
    {
        let ghost before = all.take(i as int);
        let ghost after = all.take(i + 1);
        assert(after.drop_last() =~= before);
        assert(after.last() == items@[i as int]@);
        if i > 0 {
            text.append(separator);
        }
        text.append(items[i].as_str());
        assert(text@ =~= start + joined(after, separator@));
        i += 1;
    }
    assert(all.take(n as int) =~= all);
}

/// The label of a stop: its name, then in brackets the names of the
/// regions with commas between them, then, where there is more than one
/// country code, a comma and the country codes with strokes between them.
pub fn format_stop_label(
    name: &String,
    region_names: &Vec<String>,
    country_codes: &Vec<String>,
) -> (label: String)
    ensures
        label@ == label_text(name@, texts(region_names@), texts(country_codes@)),
{
    let mut label = name.clone();
    if region_names.len() > 0 {
        label.append(" (");
        append_joined(&mut label, region_names, ", ");
        label.append(")");
    }
    if country_codes.len() > 1 {
        label.append(", ");
        append_joined(&mut label, country_codes, "/");
    }
    assert(label@ =~= label_text(name@, texts(region_names@), texts(country_codes@)));
    label
}

} // verus!
