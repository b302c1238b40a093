//! The decisions of the task that fetches one file and has it validated.
//!
//! A task asks for the file at its address. If the address cannot be asked
//! for, if no response comes, or one with a status other than success, the
//! task ends there: the payload is never read. Otherwise the payload is read
//! to its end. If that fails the task ends as if no response had come; the
//! validator never sees a part of a payload. A payload that has arrived goes
//! to the validator, and what the validator says ends the task.

use crate::record::{ComparisonRes, ComparisonResView, KindView, RequestResKind};
use crate::url::{get_medium_url, md5_digest, medium_url};
use vstd::prelude::*;
use vstd::utf8::*;

verus! {

/// The user agent that the requests carry.
pub const AGENT: &'static str =
    "LewtonWikiTool (https://github.com/est31/lewton-wiki-tool) Hyper/0.12";

/// The request that a task sends.
#[derive(Debug, PartialEq, Eq)]
pub struct FetchPlan {
    /// The address of the file.
    pub url: String,
    /// The value of the user agent header.
    pub user_agent: &'static str,
}

/// What a task does next.
#[derive(Debug, PartialEq, Eq)]
pub enum TaskStep {
    /// Send the request.
    Fetch,
    /// Read the payload of the response to its end.
    Read,
    /// Hand the payload to the validator.
    Validate,
    /// The task is over, with this outcome.
    Finished(RequestResKind),
}

/// A [`TaskStep`] as a mathematical value.
pub enum TaskStepView {
    Fetch,
    Read,
    Validate,
    Finished(KindView),
}

impl View for TaskStep {
    type V = TaskStepView;

    open spec fn view(&self) -> TaskStepView {
        match self {
            TaskStep::Fetch => TaskStepView::Fetch,
            TaskStep::Read => TaskStepView::Read,
            TaskStep::Validate => TaskStepView::Validate,
            TaskStep::Finished(kind) => TaskStepView::Finished(kind@),
        }
    }
}

/// Something that went well, or the reason why it did not, as a
/// mathematical value.
pub open spec fn attempt_view(attempt: Result<(), String>) -> Result<(), Seq<char>> {
    match attempt {
        Ok(_) => Ok(()),
        Err(reason) => Err(reason@),
    }
}

/// The end of a fetch as a mathematical value: a status code, or the
/// reason why there was no response.
pub open spec fn response_view(response: Result<u16, String>) -> Result<u16, Seq<char>> {
    match response {
        Ok(status) => Ok(status),
        Err(reason) => Err(reason@),
    }
}

/// What the validator said as a mathematical value: its findings, or the
/// reason why it failed.
pub open spec fn validation_view(validation: Result<ComparisonRes, String>) -> Result<
    ComparisonResView,
    Seq<char>,
> {
    match validation {
        Ok(findings) => Ok(findings@),
        Err(reason) => Err(reason@),
    }
}

/// Whether a status code stands for success: the codes from 200 to 299.
pub open spec fn is_success(status: u16) -> bool {
    200 <= status < 300
}

/// What follows from the address of the file. An address that cannot be
/// asked for ends the task: nothing was obtained from it.
pub open spec fn after_address(address: Result<(), Seq<char>>) -> TaskStepView {
    match address {
        Ok(_) => TaskStepView::Fetch,
        Err(reason) => TaskStepView::Finished(KindView::Error(reason)),
    }
}

/// What follows from the end of a fetch. Only a response with a status of
/// success has its payload read; any other end of the fetch ends the task,
/// with the status or with the reason as its outcome.
pub open spec fn after_response(response: Result<u16, Seq<char>>) -> TaskStepView {
    match response {
        Err(reason) => TaskStepView::Finished(KindView::Error(reason)),
        Ok(status) => if is_success(status) {
            TaskStepView::Read
        } else {
            TaskStepView::Finished(KindView::WrongResponse(status))
        },
    }
}

/// What follows from reading the payload. Only a payload that has arrived
/// whole goes to the validator; a payload that breaks off ends the task as
/// a response that was not obtained.
pub open spec fn after_payload(read: Result<(), Seq<char>>) -> TaskStepView {
    match read {
        Ok(_) => TaskStepView::Validate,
        Err(reason) => TaskStepView::Finished(KindView::Error(reason)),
    }
}

/// The outcome of a task whose payload went to the validator.
pub open spec fn after_validation(validation: Result<ComparisonResView, Seq<char>>) -> KindView {
    match validation {
        Ok(findings) => KindView::Success(findings),
        Err(reason) => KindView::ComparisonErr(reason),
    }
}

/// The one outcome of a task: from whether its address can be asked for,
/// from the end of its fetch, from whether the payload arrived, and from
/// what the validator says of the payload, each as far as the task gets.
pub open spec fn outcome_of(
    address: Result<(), Seq<char>>,
    response: Result<u16, Seq<char>>,
    read: Result<(), Seq<char>>,
    validation: Result<ComparisonResView, Seq<char>>,
) -> KindView {
    match after_address(address) {
        TaskStepView::Finished(kind) => kind,
        _ => match after_response(response) {
            TaskStepView::Finished(kind) => kind,
            _ => match after_payload(read) {
                TaskStepView::Finished(kind) => kind,
                _ => after_validation(validation),
            },
        },
    }
}

/// Whether a task gets no response that it can use: its address cannot be
/// asked for, the fetch fails, or the payload of a response with a status
/// of success breaks off.
pub open spec fn is_transport_failure(
    address: Result<(), Seq<char>>,
    response: Result<u16, Seq<char>>,
    read: Result<(), Seq<char>>,
) -> bool {
    ||| address is Err
    ||| response is Err
    ||| (after_response(response) is Read && read is Err)
}

/// Whether the payload of a task gets to the validator: the address can
/// be asked for, the response has a status of success, and the payload has
/// arrived to its end.
pub open spec fn reaches_validator(
    address: Result<(), Seq<char>>,
    response: Result<u16, Seq<char>>,
    read: Result<(), Seq<char>>,
) -> bool {
    address is Ok && after_response(response) is Read && read is Ok
}

/// Whether a status code stands for success.
pub fn status_is_success(status: u16) -> (success: bool)
    ensures
        success == is_success(status),
{
    300 > status && status >= 200
}

/// The request for the file `name`.
pub fn plan_fetch(name: &str) -> (plan: FetchPlan)
    ensures
        plan.url@ == medium_url(name@),
        md5_digest(encode_utf8(name@)).len() == 16,
        plan.user_agent == AGENT,
{
    FetchPlan { url: get_medium_url(name), user_agent: AGENT }
}

/// What the task does once it is known whether its address can be asked
/// for: `Ok`, or the reason why it cannot.
pub fn on_address(address: Result<(), String>) -> (step: TaskStep)
    ensures
        step@ == after_address(attempt_view(address)),
        step@ == match address {
            Ok(_) => TaskStepView::Fetch,
            Err(reason) => TaskStepView::Finished(KindView::Error(reason@)),
        },
{
    match address {
        Ok(_) => TaskStep::Fetch,
        Err(reason) => TaskStep::Finished(RequestResKind::Error(reason)),
    }
}

/// What the task does with the end of its fetch: a status code, or the
/// reason why there was no response.
pub fn on_response(response: Result<u16, String>) -> (step: TaskStep)
    ensures
        step@ == after_response(response_view(response)),
{
    match response {
        Ok(status) => {
            if status_is_success(status) {
                TaskStep::Read
            } else {
                TaskStep::Finished(RequestResKind::WrongResponse(status))
            }
        },
        Err(reason) => TaskStep::Finished(RequestResKind::Error(reason)),
    }
}

/// What the task does once the payload has been read: `Ok` if it arrived
/// to its end, or the reason why it broke off.
pub fn on_payload(read: Result<(), String>) -> (step: TaskStep)
    ensures
        step@ == after_payload(attempt_view(read)),
        step@ == match read {
            Ok(_) => TaskStepView::Validate,
            Err(reason) => TaskStepView::Finished(KindView::Error(reason@)),
        },
{
    match read {
        Ok(_) => TaskStep::Validate,
        Err(reason) => TaskStep::Finished(RequestResKind::Error(reason)),
    }
}

/// The outcome of a task whose payload went to the validator: the
/// validator's findings, or the reason why it failed.
pub fn on_validation(validation: Result<ComparisonRes, String>) -> (kind: RequestResKind)
    ensures
        kind@ == after_validation(validation_view(validation)),
{
    match validation {
        Ok(findings) => RequestResKind::Success(findings),
        Err(reason) => RequestResKind::ComparisonErr(reason),
    }
}

/// Every task has one outcome, whatever happens to it. The outcome is a
/// failure to get a response exactly if the task got none that it can use,
/// and it is final exactly if it is not such a failure. A payload that
/// breaks off after a status of success gives a failure with the reason of
/// the break, whatever the validator would have said.
pub proof fn lemma_one_outcome(
    address: Result<(), Seq<char>>,
    response: Result<u16, Seq<char>>,
    read: Result<(), Seq<char>>,
    validation: Result<ComparisonResView, Seq<char>>,
)
    ensures
        outcome_of(address, response, read, validation) is Error <==> is_transport_failure(
            address,
            response,
            read,
        ),
        outcome_of(address, response, read, validation).is_final() <==> !is_transport_failure(
            address,
            response,
            read,
        ),
        (address is Ok && after_response(response) is Read && read is Err) ==> outcome_of(
            address,
            response,
            read,
            validation,
        ) == KindView::Error(read->Err_0),
{
}

/// The validator is asked only about a payload that has arrived: where
/// the task ends before that, its outcome owes nothing to the validator.
pub proof fn lemma_validator_is_asked_last(
    address: Result<(), Seq<char>>,
    response: Result<u16, Seq<char>>,
    read: Result<(), Seq<char>>,
    validation: Result<ComparisonResView, Seq<char>>,
    other: Result<ComparisonResView, Seq<char>>,
)
    requires
        !reaches_validator(address, response, read),
    ensures
        outcome_of(address, response, read, validation) == outcome_of(
            address,
            response,
            read,
            other,
        ),
{
}

} // verus!
