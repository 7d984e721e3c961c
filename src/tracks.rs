use vstd::prelude::*;

verus! {

/// The name of the track with the card's numeric track id.
pub open spec fn track_name_of(track_id: u32) -> Option<Seq<char>> {
    match track_id {
        4 => Some("Monmore"@),
        5 => Some("Hove"@),
        6 => Some("Newcastle"@),
        7 => Some("Oxford"@),
        11 => Some("Romford"@),
        16 => Some("Yarmouth"@),
        21 => Some("Shelbourne Park"@),
        33 => Some("Nottingham"@),
        34 => Some("Sheffield"@),
        39 => Some("Swindon"@),
        40 => Some("Limerick"@),
        41 => Some("Clonmel"@),
        42 => Some("Cork"@),
        45 => Some("Dundalk"@),
        48 => Some("Enniscorthy"@),
        49 => Some("Galway"@),
        50 => Some("Kilkenny"@),
        51 => Some("Lifford"@),
        53 => Some("Mullingar"@),
        55 => Some("Newbridge"@),
        56 => Some("Thurles"@),
        57 => Some("Tralee"@),
        58 => Some("Waterford"@),
        59 => Some("Youghal"@),
        61 => Some("Sunderland"@),
        62 => Some("Perry Bar"@),
        66 => Some("Doncaster"@),
        69 => Some("Harlow"@),
        70 => Some("Central Park"@),
        73 => Some("Valley"@),
        76 => Some("Kingslay"@),
        86 => Some("Star Pelaw"@),
        88 => Some("Drumbo Park"@),
        98 => Some("Towcester"@),
        _ => None,
    }
}

/// Tracks whose runners are left out of the scraped cards.
pub open spec fn excluded_track(track_id: u32) -> bool {
    track_id == 40 || track_id == 41 || track_id == 59
}

/// The track's name; `None` for an id the card format does not use.
pub fn track_name(track_id: u32) -> (r: Option<String>)
    ensures
        r is Some <==> track_name_of(track_id) is Some,
        r is Some ==> r->Some_0@ == track_name_of(track_id)->Some_0,
{
    match track_id {
        4 => Some(String::from_str("Monmore")),
        5 => Some(String::from_str("Hove")),
        6 => Some(String::from_str("Newcastle")),
        7 => Some(String::from_str("Oxford")),
        11 => Some(String::from_str("Romford")),
        16 => Some(String::from_str("Yarmouth")),
        21 => Some(String::from_str("Shelbourne Park")),
        33 => Some(String::from_str("Nottingham")),
        34 => Some(String::from_str("Sheffield")),
        39 => Some(String::from_str("Swindon")),
        40 => Some(String::from_str("Limerick")),
        41 => Some(String::from_str("Clonmel")),
        42 => Some(String::from_str("Cork")),
        45 => Some(String::from_str("Dundalk")),
        48 => Some(String::from_str("Enniscorthy")),
        49 => Some(String::from_str("Galway")),
        50 => Some(String::from_str("Kilkenny")),
        51 => Some(String::from_str("Lifford")),
        53 => Some(String::from_str("Mullingar")),
        55 => Some(String::from_str("Newbridge")),
        56 => Some(String::from_str("Thurles")),
        57 => Some(String::from_str("Tralee")),
        58 => Some(String::from_str("Waterford")),
        59 => Some(String::from_str("Youghal")),
        61 => Some(String::from_str("Sunderland")),
        62 => Some(String::from_str("Perry Bar")),
        66 => Some(String::from_str("Doncaster")),
        69 => Some(String::from_str("Harlow")),
        70 => Some(String::from_str("Central Park")),
        73 => Some(String::from_str("Valley")),
        76 => Some(String::from_str("Kingslay")),
        86 => Some(String::from_str("Star Pelaw")),
        88 => Some(String::from_str("Drumbo Park")),
        98 => Some(String::from_str("Towcester")),
        _ => None,
    }
}

/// Whether runners of this track are left out (Limerick, Clonmel, Youghal).
pub fn is_excluded_track(track_id: u32) -> (r: bool)
    ensures
        r == excluded_track(track_id),
{
    track_id == 40 || track_id == 41 || track_id == 59
}

} // verus!
