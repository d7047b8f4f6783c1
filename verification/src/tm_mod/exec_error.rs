//! Errors met while carrying a command out.
use vstd::prelude::*;
use crate::text::{decimal, decimal_text};

verus! {

#[derive(Debug, PartialEq, Eq, PartialOrd, Ord)]
pub enum ExecError {
    /// No process with that name
    ProcessName(String),
    /// No service with that name
    ServiceName(String),
    /// Sending to thread error
    Sending((String, usize)),
    /// Thread out of range
    ThreadOutofRange((String, usize)),
}

impl Clone for ExecError {
    fn clone(&self) -> (r: Self)
        ensures
            r@ == self@,
    {
        match self {
            ExecError::ProcessName(n) => ExecError::ProcessName(n.clone()),
            ExecError::ServiceName(n) => ExecError::ServiceName(n.clone()),
            ExecError::Sending((n, id)) => ExecError::Sending((n.clone(), *id)),
            ExecError::ThreadOutofRange((n, id)) => ExecError::ThreadOutofRange((n.clone(), *id)),
        }
    }
}

pub enum ExecErrorView {
    ProcessName(Seq<char>),
    ServiceName(Seq<char>),
    Sending(Seq<char>, usize),
    ThreadOutofRange(Seq<char>, usize),
}

impl View for ExecError {
    type V = ExecErrorView;

    open spec fn view(&self) -> ExecErrorView {
        match self {
            ExecError::ProcessName(n) => ExecErrorView::ProcessName(n@),
            ExecError::ServiceName(n) => ExecErrorView::ServiceName(n@),
            ExecError::Sending((n, id)) => ExecErrorView::Sending(n@, *id),
            ExecError::ThreadOutofRange((n, id)) => ExecErrorView::ThreadOutofRange(n@, *id),
        }
    }
}

impl DeepView for ExecError {
    type V = ExecErrorView;

    open spec fn deep_view(&self) -> ExecErrorView {
        self@
    }
}

pub open spec fn exec_error_text(e: ExecErrorView) -> Seq<char> {
    match e {
        ExecErrorView::ProcessName(_) => "no process with name"@,
        ExecErrorView::ServiceName(_) => "no service with name"@,
        ExecErrorView::Sending(..) => "problem while sending to to thread for (process, thread_id):"@,
        ExecErrorView::ThreadOutofRange(..) => "thread out of range for (process, thread_id) :"@,
    }
}

/// The text that displaying the error shows: the description, then the name,
/// or the process name and thread id as `(name,id)`.
pub open spec fn exec_error_message(e: ExecErrorView) -> Seq<char> {
    match e {
        ExecErrorView::ProcessName(n) => exec_error_text(e) + " "@ + n,
        ExecErrorView::ServiceName(n) => exec_error_text(e) + " "@ + n,
        ExecErrorView::Sending(n, id) => exec_error_text(e) + " ("@ + n + ","@ + decimal_text(id as nat) + ")"@,
        ExecErrorView::ThreadOutofRange(n, id) => exec_error_text(e) + " ("@ + n + ","@ + decimal_text(id as nat) + ")"@,
    }
}

impl ExecError {
    pub fn description(&self) -> (r: &'static str)
        ensures
            r@ == exec_error_text(self@),
    {
        match self {
            ExecError::ProcessName(_) => "no process with name",
            ExecError::ServiceName(_) => "no service with name",
            ExecError::Sending(_) => "problem while sending to to thread for (process, thread_id):",
            ExecError::ThreadOutofRange(_) => "thread out of range for (process, thread_id) :",
        }
    }

    pub fn message(&self) -> (r: String)
        ensures
            r@ == exec_error_message(self@),
    {
        let mut r = String::from_str(self.description());
        match self {
            ExecError::ProcessName(name) => {
                r.append(" ");
                r.append(name.as_str());
            },
            ExecError::ServiceName(name) => {
                r.append(" ");
                r.append(name.as_str());
            },
            ExecError::Sending((name, id)) => {
                r.append(" (");
                r.append(name.as_str());
                r.append(",");
                let d = decimal(*id);
                r.append(d.as_str());
                r.append(")");
            },
            ExecError::ThreadOutofRange((name, id)) => {
                r.append(" (");
                r.append(name.as_str());
                r.append(",");
                let d = decimal(*id);
                r.append(d.as_str());
                r.append(")");
            },
        }
        r
    }
}

#[derive(Debug, PartialEq, Eq, PartialOrd, Ord, Clone)]
pub struct ExecErrors {
    pub e_vect: Vec<ExecError>,
}

/// Every message preceded by a line break, one after the other.
pub open spec fn exec_errors_message(es: Seq<ExecErrorView>) -> Seq<char>
    decreases es.len(),
{
    if es.len() == 0 {
        Seq::<char>::empty()
    } else {
        exec_errors_message(es.drop_last()) + "\n"@ + exec_error_message(es.last())
    }
}

impl ExecErrors {
    pub fn description(&self) -> (r: &'static str)
        ensures
            r@ == "exec errors"@,
    {
        "exec errors"
    }

    /// The text that displaying the errors shows.
    pub fn message(&self) -> (r: String)
        ensures
            r@ == exec_errors_message(self.e_vect.deep_view()),
    {
        let mut r = String::new();
        let n = self.e_vect.len();
        let mut i: usize = 0;
        proof {
            assert(self.e_vect.deep_view().take(0) =~= Seq::<ExecErrorView>::empty());
        }
        while i < n
            invariant
                n == self.e_vect.len(),
                i <= n,
                r@ == exec_errors_message(self.e_vect.deep_view().take(i as int)),
            decreases n - i,
        {
            let m = self.e_vect[i].message();
            r.append("\n");
            r.append(m.as_str());
            proof {
                let es = self.e_vect.deep_view();
                assert(es.take(i + 1).drop_last() =~= es.take(i as int));
                assert(es.take(i + 1).last() == self.e_vect[i as int]@);
            }
            i = i + 1;
        }
        proof {
            assert(self.e_vect.deep_view().take(n as int) =~= self.e_vect.deep_view());
        }
        r
    }

    /// No error is success; otherwise every error, in order.
    pub fn result_from_e_vec(e: Vec<ExecError>) -> (r: Result<(), ExecErrors>)
        ensures
            r is Ok <==> e.len() == 0,
            r matches Err(es) ==> es.e_vect == e,
    {
        if e.len() == 0 {
            return Ok(());
        } else {
            return Err(ExecErrors { e_vect: e });
        }
    }
}

} // verus!
