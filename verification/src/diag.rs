//! The bridge diagnosis: which identities are tried, and what follows each answer of the bridge.
use vstd::prelude::*;
use vstd::string::*;

use crate::engine::{config_with, find_config};
use crate::hue_client::EntertainmentConfig;

verus! {

/// Frames of the colour sweep.
pub const SWEEP_FRAMES: u32 = 250;

/// The next step of a diagnosis.
#[derive(Debug)]
pub enum DiagStep {
    /// Tell the bridge to open its port.
    Start { identity: String },
    /// Shake hands.
    Handshake { identity: String },
    /// Tell the bridge to close its port after a handshake that failed.
    Abort,
    /// Send a frame of the colour sweep.
    Send { frame: u32 },
    /// Close the stream, and tell the bridge to close its port.
    Finish,
    Done,
}

/// The step with its text as characters.
pub enum DiagStepModel {
    Start { identity: Seq<char> },
    Handshake { identity: Seq<char> },
    Abort,
    Send { frame: u32 },
    Finish,
    Done,
}

impl View for DiagStep {
    type V = DiagStepModel;

    open spec fn view(&self) -> DiagStepModel {
        match self {
            DiagStep::Start { identity } => DiagStepModel::Start { identity: identity@ },
            DiagStep::Handshake { identity } => DiagStepModel::Handshake { identity: identity@ },
            DiagStep::Abort => DiagStepModel::Abort,
            DiagStep::Send { frame } => DiagStepModel::Send { frame: *frame },
            DiagStep::Finish => DiagStepModel::Finish,
            DiagStep::Done => DiagStepModel::Done,
        }
    }
}

/// A diagnosis under way: its next step, and the identity that is tried if this one fails.
#[derive(Debug)]
pub struct Diagnosis {
    pub step: DiagStep,
    pub other: Option<String>,
}

/// A diagnosis with its texts as characters.
pub struct DiagModel {
    pub step: DiagStepModel,
    pub other: Option<Seq<char>>,
}

impl View for Diagnosis {
    type V = DiagModel;

    open spec fn view(&self) -> DiagModel {
        DiagModel {
            step: self.step@,
            other: match self.other {
                Some(s) => Some(s@),
                None => None,
            },
        }
    }
}

impl DiagModel {
    /// The identity that the bridge gave is tried first, then the application key.
    pub open spec fn initial(application_id: Option<Seq<char>>, app_key: Seq<char>) -> DiagModel {
        match application_id {
            Some(id) => DiagModel {
                step: DiagStepModel::Start { identity: id },
                other: Some(app_key),
            },
            None => DiagModel { step: DiagStepModel::Start { identity: app_key }, other: None },
        }
    }

    /// An identity is tried, if one is left.
    pub open spec fn trying(left: Option<Seq<char>>) -> DiagModel {
        match left {
            Some(id) => DiagModel { step: DiagStepModel::Start { identity: id }, other: None },
            None => DiagModel { step: DiagStepModel::Done, other: None },
        }
    }

    pub open spec fn at(self, step: DiagStepModel) -> DiagModel {
        DiagModel { step, other: self.other }
    }

    /// What follows a step that went well or did not.
    pub open spec fn next(self, ok: bool) -> DiagModel {
        match self.step {
            DiagStepModel::Start { identity } => if ok {
                self.at(DiagStepModel::Handshake { identity })
            } else {
                DiagModel::trying(self.other)
            },
            DiagStepModel::Handshake { identity: _ } => if ok {
                self.at(DiagStepModel::Send { frame: 0 })
            } else {
                self.at(DiagStepModel::Abort)
            },
            DiagStepModel::Abort => DiagModel::trying(self.other),
            DiagStepModel::Send { frame } => if ok && frame + 1 < SWEEP_FRAMES {
                self.at(DiagStepModel::Send { frame: (frame + 1) as u32 })
            } else {
                self.at(DiagStepModel::Finish)
            },
            DiagStepModel::Finish | DiagStepModel::Done => self.at(DiagStepModel::Done),
        }
    }
}

impl Diagnosis {
    pub fn new(application_id: Option<String>, app_key: String) -> (d: Diagnosis)
        ensures
            d@ == DiagModel::initial(
                match application_id {
                    Some(s) => Some(s@),
                    None => None,
                },
                app_key@,
            ),
    {
        match application_id {
            Some(identity) => Diagnosis {
                step: DiagStep::Start { identity },
                other: Some(app_key),
            },
            None => Diagnosis { step: DiagStep::Start { identity: app_key }, other: None },
        }
    }

    fn retry(left: Option<String>) -> (d: Diagnosis)
        ensures
            d@ == DiagModel::trying(
                match left {
                    Some(s) => Some(s@),
                    None => None,
                },
            ),
    {
        match left {
            Some(identity) => Diagnosis { step: DiagStep::Start { identity }, other: None },
            None => Diagnosis { step: DiagStep::Done, other: None },
        }
    }

    /// The diagnosis after a step that went well or did not.
    pub fn next(self, ok: bool) -> (d: Diagnosis)
        ensures
            d@ == self@.next(ok),
    {
        let other = self.other;
        match self.step {
            DiagStep::Start { identity } => if ok {
                Diagnosis { step: DiagStep::Handshake { identity }, other }
            } else {
                Diagnosis::retry(other)
            },
            DiagStep::Handshake { identity: _ } => if ok {
                Diagnosis { step: DiagStep::Send { frame: 0 }, other }
            } else {
                Diagnosis { step: DiagStep::Abort, other }
            },
            DiagStep::Abort => Diagnosis::retry(other),
            DiagStep::Send { frame } => if ok && frame < SWEEP_FRAMES - 1 {
                Diagnosis { step: DiagStep::Send { frame: frame + 1 }, other }
            } else {
                Diagnosis { step: DiagStep::Finish, other }
            },
            DiagStep::Finish => Diagnosis { step: DiagStep::Done, other },
            DiagStep::Done => Diagnosis { step: DiagStep::Done, other },
        }
    }
}

/// The bridge has an entertainment configuration.
pub fn knows_area(configs: &Vec<EntertainmentConfig>, wanted: &str) -> (r: bool)
    ensures
        r == config_with(configs@.map_values(|c: EntertainmentConfig| c@), wanted@) is Some,
{
    find_config(configs, wanted).is_some()
}

impl DiagStepModel {
    /// The bridge's port is open while the step is taken.
    pub open spec fn port_open(self) -> bool {
        self is Handshake || self is Abort || self is Send || self is Finish
    }

    /// The step tells the bridge to close its port.
    pub open spec fn closes_port(self) -> bool {
        self is Abort || self is Finish
    }
}

/// A port that a diagnosis opened is told to close before another identity is tried and before the
/// diagnosis ends; it is open only after a request to open it that went well.
pub proof fn lemma_ports_are_closed(d: DiagModel, ok: bool)
    ensures
        d.step.port_open() && !d.next(ok).step.port_open() ==> d.step.closes_port(),
        !d.step.port_open() && d.next(ok).step.port_open() ==> d.step is Start && ok,
{
}

impl DiagModel {
    /// Steps that are left at most.
    pub open spec fn steps_left(self) -> int {
        let rest = if self.other is Some {
            300int
        } else {
            0
        };
        rest + match self.step {
            DiagStepModel::Start { identity: _ } => 254int,
            DiagStepModel::Handshake { identity: _ } => 253,
            DiagStepModel::Send { frame } => if frame < SWEEP_FRAMES {
                252 - frame
            } else {
                2
            },
            DiagStepModel::Abort => 1,
            DiagStepModel::Finish => 1,
            DiagStepModel::Done => 0,
        }
    }
}

/// A diagnosis ends, however its steps go.
pub proof fn lemma_diagnosis_ends(d: DiagModel, ok: bool)
    requires
        !(d.step is Done),
    ensures
        0 <= d.next(ok).steps_left() < d.steps_left(),
{
}

} // verus!
