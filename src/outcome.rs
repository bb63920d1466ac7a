use vstd::prelude::*;

verus! {

/// How an event ended.
#[derive(Clone, Debug)]
pub enum Outcome {
    Success,
    Failure,
    Mixed,
    Unknown,
    Other(String),
}

/// The mathematical value of an `Outcome`.
pub enum OutcomeView {
    Success,
    Failure,
    Mixed,
    Unknown,
    Other(Seq<char>),
}

impl View for Outcome {
    type V = OutcomeView;

    open spec fn view(&self) -> OutcomeView {
        match self {
            Outcome::Success => OutcomeView::Success,
            Outcome::Failure => OutcomeView::Failure,
            Outcome::Mixed => OutcomeView::Mixed,
            Outcome::Unknown => OutcomeView::Unknown,
            Outcome::Other(s) => OutcomeView::Other(s@),
        }
    }
}

/// The text of an outcome: its name in lower case, or the text an `Other` carries.
pub open spec fn outcome_label(o: OutcomeView) -> Seq<char> {
    match o {
        OutcomeView::Success => "success"@,
        OutcomeView::Failure => "failure"@,
        OutcomeView::Mixed => "mixed"@,
        OutcomeView::Unknown => "unknown"@,
        OutcomeView::Other(s) => s,
    }
}

impl Outcome {
    pub fn copy(&self) -> (r: Outcome)
        ensures
            r@ == self@,
    {
        match self {
            Outcome::Success => Outcome::Success,
            Outcome::Failure => Outcome::Failure,
            Outcome::Mixed => Outcome::Mixed,
            Outcome::Unknown => Outcome::Unknown,
            Outcome::Other(s) => Outcome::Other(s.clone()),
        }
    }

    pub fn same_as(&self, other: &Outcome) -> (r: bool)
        ensures
            r == (self@ == other@),
    {
        match self {
            Outcome::Success => match other {
                Outcome::Success => true,
                _ => false,
            },
            Outcome::Failure => match other {
                Outcome::Failure => true,
                _ => false,
            },
            Outcome::Mixed => match other {
                Outcome::Mixed => true,
                _ => false,
            },
            Outcome::Unknown => match other {
                Outcome::Unknown => true,
                _ => false,
            },
            Outcome::Other(a) => match other {
                Outcome::Other(b) => {
                    let r = *a == *b;
                    proof {
                        if r {
                            assert(self@ == OutcomeView::Other(a@));
                        } else {
                            assert(a@ != b@);
                        }
                    }
                    r
                },
                _ => false,
            },
        }
    }

    /// The outcome's text (see `outcome_label`).
    pub fn label(&self) -> (r: String)
        ensures
            r@ == outcome_label(self@),
    {
        match self {
            Outcome::Success => "success".to_owned(),
            Outcome::Failure => "failure".to_owned(),
            Outcome::Mixed => "mixed".to_owned(),
            Outcome::Unknown => "unknown".to_owned(),
            Outcome::Other(s) => s.clone(),
        }
    }
}

} // verus!
