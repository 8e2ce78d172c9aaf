//! The payloads of the account service.

use vstd::prelude::*;

verus! {

/// The claim carried by a vote token.
#[derive(Clone, Debug)]
pub struct VoteTokenClaim {
    pub vote_id: Option<String>,
}

/// A login that is under way through an outside identity provider.
#[derive(Clone, Debug)]
pub struct LoginSession {
    pub thbwiki_uid: Option<String>,
    pub qq_openid: Option<String>,
    pub signup_ip: Option<String>,
}

/// A verification code to be sent by mail.
#[derive(Clone, Debug)]
pub struct EmailRequest {
    pub code: String,
    pub email: String,
}

/// A verification code to be sent by text message.
#[derive(Clone, Debug)]
pub struct SMSRequest {
    pub code: String,
    pub mobile: String,
}

/// The dates of the poll as configured.
#[allow(non_camel_case_types)]
#[derive(Clone, Debug)]
pub struct Config_vote_date {
    pub vote_year: u32,
    pub vote_start: String,
    pub vote_end: String,
}

#[derive(Clone, Debug)]
pub struct Config {
    pub vote_date: Config_vote_date,
}

/// Where a request came from.
#[derive(Clone, Debug)]
pub struct UserEventMeta {
    pub user_ip: String,
    pub additional_fingureprint: Option<String>,
}

#[derive(Clone, Debug)]
pub struct SendPhoneVerifyCodeRequest {
    pub phone: String,
    pub meta: UserEventMeta,
}

#[derive(Clone, Debug)]
pub struct SendEmailVerifyCodeRequest {
    pub email: String,
    pub meta: UserEventMeta,
}

#[derive(Clone, Debug)]
pub struct EmailLoginInputsForExistingVoters {
    pub email: String,
    pub password: String,
    pub meta: UserEventMeta,
}

#[derive(Clone, Debug)]
pub struct EmailLoginInputs {
    pub email: String,
    pub nickname: Option<String>,
    pub verify_code: String,
    pub meta: UserEventMeta,
}

#[derive(Clone, Debug)]
pub struct PhoneLoginInputs {
    pub phone: String,
    pub nickname: Option<String>,
    pub verify_code: String,
    pub meta: UserEventMeta,
}

#[derive(Clone, Debug)]
pub struct UpdateEmailInputs {
    pub user_token: String,
    pub email: String,
    pub verify_code: String,
    pub meta: UserEventMeta,
}

#[derive(Clone, Debug)]
pub struct UpdatePhoneInputs {
    pub user_token: String,
    pub phone: String,
    pub verify_code: String,
    pub meta: UserEventMeta,
}

#[derive(Clone, Debug)]
pub struct UpdateNicknameInputs {
    pub user_token: String,
    pub nickname: String,
    pub meta: UserEventMeta,
}

#[derive(Clone, Debug)]
pub struct UpdatePasswordInputs {
    pub user_token: String,
    pub old_password: Option<String>,
    pub new_password: String,
    pub meta: UserEventMeta,
}

#[derive(Clone, Debug)]
pub struct TokenStatusInputs {
    pub user_token: String,
}

#[derive(Clone, Debug)]
pub struct RemoveVoterRequest {
    pub user_token: String,
    pub old_password: Option<String>,
    pub meta: UserEventMeta,
}

} // verus!
