//! Layout options that carry no numbers: how ranks are assigned and which
//! heuristic orders the nodes of a rank.
use vstd::prelude::*;

verus! {

/// How vertices are placed on layers.
#[derive(Clone, Copy, Debug, PartialEq, Eq, Structural)]
pub enum RankingType {
    Original,
    MinimizeEdgeLength,
    Hybrid,
    Up,
    Down,
}

/// Heuristic used while minimizing edge crossings.
#[derive(Clone, Copy, Debug, PartialEq, Eq, Structural)]
pub enum CrossingMinimization {
    Barycenter,
    Median,
}

/// The ranking type a configuration string names.
pub open spec fn ranking_type_named(s: Seq<char>) -> Option<RankingType> {
    if s == "original"@ {
        Some(RankingType::Original)
    } else if s == "minimize"@ {
        Some(RankingType::MinimizeEdgeLength)
    } else if s == "hybrid"@ {
        Some(RankingType::Hybrid)
    } else if s == "up"@ {
        Some(RankingType::Up)
    } else if s == "down"@ {
        Some(RankingType::Down)
    } else {
        None
    }
}

/// The crossing minimization heuristic a configuration string names.
pub open spec fn crossing_minimization_named(s: Seq<char>) -> Option<CrossingMinimization> {
    if s == "barycenter"@ {
        Some(CrossingMinimization::Barycenter)
    } else if s == "median"@ {
        Some(CrossingMinimization::Median)
    } else {
        None
    }
}

/// The configuration name of a ranking type.
pub open spec fn ranking_type_name(t: RankingType) -> Seq<char> {
    match t {
        RankingType::Up => "up"@,
        RankingType::Down => "down"@,
        RankingType::Original => "original"@,
        RankingType::MinimizeEdgeLength => "minimize"@,
        RankingType::Hybrid => "hybrid"@,
    }
}

/// The configuration name of a crossing minimization heuristic.
pub open spec fn crossing_minimization_name(c: CrossingMinimization) -> Seq<char> {
    match c {
        CrossingMinimization::Median => "median"@,
        CrossingMinimization::Barycenter => "barycenter"@,
    }
}

/// `prefix` followed by `value`.
fn prefixed_message(prefix: &str, value: &str) -> (msg: String)
    ensures
        msg@ == prefix@ + value@,
{
    let mut msg: String = prefix.to_owned();
    msg.append(value);
    msg
}

fn name_is(value: &String, name: &str) -> (same: bool)
    ensures
        same == (value@ == name@),
{
    let owned: String = name.to_owned();
    *value == owned
}

impl RankingType {
    /// Parses a configuration name; an unknown name is answered with a message
    /// that quotes it.
    pub fn try_from(value: String) -> (res: Result<RankingType, String>)
        ensures
            match ranking_type_named(value@) {
                Some(t) => res == Ok::<RankingType, String>(t),
                None => res is Err && res->Err_0@ == "invalid value for ranking type: "@ + value@,
            },
    {
        if name_is(&value, "original") {
            Ok(RankingType::Original)
        } else if name_is(&value, "minimize") {
            Ok(RankingType::MinimizeEdgeLength)
        } else if name_is(&value, "hybrid") {
            Ok(RankingType::Hybrid)
        } else if name_is(&value, "up") {
            Ok(RankingType::Up)
        } else if name_is(&value, "down") {
            Ok(RankingType::Down)
        } else {
            Err(prefixed_message("invalid value for ranking type: ", value.as_str()))
        }
    }

    /// The configuration name of this ranking type.
    pub fn name(self) -> (name: &'static str)
        ensures
            name@ == ranking_type_name(self),
    {
        match self {
            RankingType::Up => "up",
            RankingType::Down => "down",
            RankingType::Original => "original",
            RankingType::MinimizeEdgeLength => "minimize",
            RankingType::Hybrid => "hybrid",
        }
    }
}

impl CrossingMinimization {
    /// Parses a configuration name; an unknown name is answered with a message
    /// that quotes it.
    pub fn try_from(value: String) -> (res: Result<CrossingMinimization, String>)
        ensures
            match crossing_minimization_named(value@) {
                Some(c) => res == Ok::<CrossingMinimization, String>(c),
                None => res is Err && res->Err_0@ == "invalid value for crossing minimization: "@
                    + value@,
            },
    {
        if name_is(&value, "barycenter") {
            Ok(CrossingMinimization::Barycenter)
        } else if name_is(&value, "median") {
            Ok(CrossingMinimization::Median)
        } else {
            Err(prefixed_message("invalid value for crossing minimization: ", value.as_str()))
        }
    }

    /// The configuration name of this heuristic.
    pub fn name(self) -> (name: &'static str)
        ensures
            name@ == crossing_minimization_name(self),
    {
        match self {
            CrossingMinimization::Median => "median",
            CrossingMinimization::Barycenter => "barycenter",
        }
    }
}

} // verus!
