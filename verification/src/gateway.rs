//! What the gateway forwards to the services behind it: the roots of its
//! schema and the payloads of the account and catalog services.

use vstd::prelude::*;

verus! {

/// The claim carried by a vote token.
#[derive(Clone, Debug)]
pub struct VoteTokenClaim {
    pub vote_id: Option<String>,
}

/// The version of the gateway's interface.
pub open spec fn api_version() -> Seq<char> {
    "1.0"@
}

/// Root of the read operations.
#[derive(Clone, Copy, Debug)]
pub struct Query;

impl Query {
    #[allow(non_snake_case)]
    pub fn apiVersion() -> (v: &'static str)
        ensures
            v@ == api_version(),
    {
        "1.0"
    }
}

/// Root of the write operations.
#[derive(Clone, Copy, Debug)]
pub struct Mutation;

impl Mutation {
    #[allow(non_snake_case)]
    pub fn apiVersion() -> (v: &'static str)
        ensures
            v@ == api_version(),
    {
        "1.0"
    }
}

/// Root of the subscriptions.
#[derive(Clone, Copy, Debug)]
pub struct Subscription;

impl Subscription {
    #[allow(non_snake_case)]
    pub fn apiVersion() -> (v: &'static str)
        ensures
            v@ == api_version(),
    {
        "1.0"
    }
}

/// Where a request to the account service came from.
#[derive(Clone, Debug)]
pub struct UserEventMeta {
    pub user_ip: String,
    pub additional_fingureprint: Option<String>,
}

#[derive(Clone, Debug)]
pub struct SendPhoneVerifyCodeRequest {
    pub phone: String,
    pub meta: UserEventMeta,
}

#[derive(Clone, Debug)]
pub struct SendEmailVerifyCodeRequest {
    pub email: String,
    pub meta: UserEventMeta,
}

#[derive(Clone, Debug)]
pub struct EmailLoginInputsForExistingVoters {
    pub email: String,
    pub password: String,
    pub meta: UserEventMeta,
}

#[derive(Clone, Debug)]
pub struct EmailLoginInputs {
    pub email: String,
    pub nickname: Option<String>,
    pub verify_code: String,
    pub meta: UserEventMeta,
}

#[derive(Clone, Debug)]
pub struct PhoneLoginInputs {
    pub phone: String,
    pub nickname: Option<String>,
    pub verify_code: String,
    pub meta: UserEventMeta,
}

#[derive(Clone, Debug)]
pub struct UpdateEmailInputs {
    pub user_token: String,
    pub email: String,
    pub verify_code: String,
    pub meta: UserEventMeta,
}

#[derive(Clone, Debug)]
pub struct UpdatePhoneInputs {
    pub user_token: String,
    pub phone: String,
    pub verify_code: String,
    pub meta: UserEventMeta,
}

#[derive(Clone, Debug)]
pub struct UpdateNicknameInputs {
    pub user_token: String,
    pub nickname: String,
    pub meta: UserEventMeta,
}

#[derive(Clone, Debug)]
pub struct UpdatePasswordInputs {
    pub user_token: String,
    pub old_password: Option<String>,
    pub new_password: String,
    pub meta: UserEventMeta,
}

#[derive(Clone, Debug)]
pub struct TokenStatusInputs {
    pub user_token: String,
    pub vote_token: Option<String>,
}

#[derive(Clone, Debug)]
pub struct RemoveVoterRequest {
    pub user_token: String,
    pub old_password: Option<String>,
    pub meta: UserEventMeta,
}

#[derive(Clone, Debug)]
pub struct VotableCharacters {
    pub data: Vec<VotableCharacter>,
}

#[derive(Clone, Debug)]
pub struct VotableCharacter {
    pub name: String,
    pub altnames: Vec<String>,
    pub title: Option<String>,
    pub image: String,
    pub color: String,
    /// The works the character appears in.
    pub appeared_in: Vec<String>,
}

#[derive(Clone, Debug)]
pub struct VotableMusics {
    pub data: Vec<VotableMusic>,
}

#[derive(Clone, Debug)]
pub struct VotableMusic {
    pub name: String,
    pub altnames: Vec<String>,
    pub image: String,
    /// The work the piece first appears in.
    pub first_appeared_in: String,
    pub character: Option<String>,
}

#[derive(Clone, Debug)]
pub struct VotableWorks {
    pub data: Vec<VotableWork>,
}

#[derive(Clone, Debug)]
pub struct VotableWork {
    pub name: String,
    pub altnames: Vec<String>,
    pub image: String,
    pub release_date: String,
}

} // verus!
