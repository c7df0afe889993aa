//! Station codes of the railway and the stations they stand for.

use vstd::prelude::*;
use vstd::string::StringExecFns;

verus! {

/// A station code.
pub type CRS = String;

/// Whether `code` is a station code that the table holds.
pub open spec fn is_known_code(code: Seq<char>) -> bool {
    code == "EDB"@ || code == "BHG"@
}

/// The name of the station that `code` stands for.
pub open spec fn station_name(code: Seq<char>) -> Seq<char> {
    if code == "EDB"@ {
        "Edinburgh Waverley"@
    } else {
        "Bathgate"@
    }
}

/// The name of the station with the given code, which the table must hold.
pub fn crs(code: &CRS) -> (name: &'static str)
    requires
        is_known_code(code@),
    ensures
        name@ == station_name(code@),
{
    if *code == String::from_str("EDB") {
        "Edinburgh Waverley"
    } else {
        "Bathgate"
    }
}

/// The name of the station with the given code, if the table holds it.
pub fn find_station(code: &CRS) -> (name: Option<&'static str>)
    ensures
        name is Some <==> is_known_code(code@),
        name is Some ==> name->0@ == station_name(code@),
{
    if *code == String::from_str("EDB") || *code == String::from_str("BHG") {
        Some(crs(code))
    } else {
        None
    }
}

} // verus!
