use vstd::prelude::*;

use crate::text::{chars_of, concat_chars, string_of};

verus! {

/// The equilibrium search that the solver runs.
#[derive(Debug, Clone, Copy, PartialEq, Eq, Structural)]
pub enum Algorithm {
    FictitiousPlay,
    Cfr,
    Cfr3Max,
}

pub open spec fn spec_algorithm_name(a: Algorithm) -> Seq<char> {
    match a {
        Algorithm::FictitiousPlay => "fp"@,
        Algorithm::Cfr => "cfr"@,
        Algorithm::Cfr3Max => "cfr-3max"@,
    }
}

/// What reading an algorithm name gives: the name, or the message for an
/// unknown one.
pub open spec fn spec_parse_algorithm(value: Seq<char>) -> Result<Algorithm, Seq<char>> {
    if value == "fp"@ {
        Ok(Algorithm::FictitiousPlay)
    } else if value == "cfr"@ {
        Ok(Algorithm::Cfr)
    } else if value == "cfr-3max"@ {
        Ok(Algorithm::Cfr3Max)
    } else {
        Err("unknown algorithm: "@ + value + " (expected fp, cfr, or cfr-3max)"@)
    }
}

impl Algorithm {
    /// The name of the algorithm on the command line.
    pub fn as_str(self) -> (s: &'static str)
        ensures
            s@ == spec_algorithm_name(self),
    {
        match self {
            Algorithm::FictitiousPlay => "fp",
            Algorithm::Cfr => "cfr",
            Algorithm::Cfr3Max => "cfr-3max",
        }
    }

    /// Reads an algorithm name.
    pub fn parse(value: &str) -> (r: Result<Algorithm, String>)
        ensures
            match r {
                Ok(a) => spec_parse_algorithm(value@) == Ok::<Algorithm, Seq<char>>(a),
                Err(m) => spec_parse_algorithm(value@) == Err::<Algorithm, Seq<char>>(m@),
            },
    {
        let v = chars_of(value);
        if same_chars(&v, &chars_of("fp")) {
            return Ok(Algorithm::FictitiousPlay);
        }
        if same_chars(&v, &chars_of("cfr")) {
            return Ok(Algorithm::Cfr);
        }
        if same_chars(&v, &chars_of("cfr-3max")) {
            return Ok(Algorithm::Cfr3Max);
        }
        let head = concat_chars(&chars_of("unknown algorithm: "), &v);
        let all = concat_chars(&head, &chars_of(" (expected fp, cfr, or cfr-3max)"));
        Err(string_of(&all))
    }
}

impl Default for Algorithm {
    fn default() -> (a: Algorithm)
        ensures
            a == Algorithm::FictitiousPlay,
    {
        Algorithm::FictitiousPlay
    }
}

impl core::str::FromStr for Algorithm {
    type Err = String;

    fn from_str(value: &str) -> (r: Result<Algorithm, String>)
        ensures
            match r {
                Ok(a) => spec_parse_algorithm(value@) == Ok::<Algorithm, Seq<char>>(a),
                Err(m) => spec_parse_algorithm(value@) == Err::<Algorithm, Seq<char>>(m@),
            },
    {
        Algorithm::parse(value)
    }
}

/// Whether two character sequences are equal.
pub fn same_chars(a: &Vec<char>, b: &Vec<char>) -> (r: bool)
    ensures
        r == (a@ == b@),
{
    if a.len() != b.len() {
        return false;
    }
    let mut i: usize = 0;
    while i < a.len()
        invariant
            i <= a.len() == b.len(),
            forall|k: int| 0 <= k < i ==> a@[k] == b@[k],
        decreases a.len() - i,
    {
        if a[i] != b[i] {
            return false;
        }
        i += 1;
    }
    assert(a@ =~= b@);
    true
}

/// Reading the name of an algorithm gives the algorithm back.
pub proof fn law_name_roundtrip(a: Algorithm)
    ensures
        spec_parse_algorithm(spec_algorithm_name(a)) == Ok::<Algorithm, Seq<char>>(a),
{
    reveal_strlit("fp");
    reveal_strlit("cfr");
    reveal_strlit("cfr-3max");
    assert("fp"@.len() == 2 && "cfr"@.len() == 3 && "cfr-3max"@.len() == 8);
    assert("fp"@ != "cfr"@);
    assert("fp"@ != "cfr-3max"@);
    assert("cfr"@ != "cfr-3max"@);
}

} // verus!
