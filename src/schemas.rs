//! Request bodies and their field rules.
//!
//! Validation returns, for each field that breaks a rule, the field's name and
//! the messages of the broken rules, in field order; an empty list means the
//! request is valid.
use vstd::prelude::*;

verus! {

/// Whether a text is an e-mail address by the HTML5 rule.
pub uninterp spec fn email_valid(s: Seq<char>) -> bool;

/// Relies on validator's `ValidateEmail` for `&str`: the HTML5 e-mail rule,
/// which refuses an empty text and one without `@`.
#[verifier::external_body]
fn is_email(s: &str) -> (r: bool)
    ensures
        r == email_valid(s@),
        s@.len() == 0 ==> !r,
        !s@.contains('@') ==> !r,
{
    validator::ValidateEmail::validate_email(&s)
}

/// The rule violations of one field.
pub struct FieldError {
    pub field: String,
    pub messages: Vec<String>,
}

pub open spec fn field_error_view(e: FieldError) -> (Seq<char>, Seq<Seq<char>>) {
    (e.field@, crate::claims::labels_view(e.messages@))
}

pub open spec fn errors_view(v: Seq<FieldError>) -> Seq<(Seq<char>, Seq<Seq<char>>)> {
    v.map_values(|e: FieldError| field_error_view(e))
}

/// One entry for `field` with the message `message` where `broken`, nothing otherwise.
pub open spec fn rule(broken: bool, field: &str, message: &str) -> Seq<(Seq<char>, Seq<Seq<char>>)> {
    if broken {
        seq![(field@, seq![message@])]
    } else {
        Seq::empty()
    }
}

/// A required text field: missing gives an entry without message; present
/// but shorter than `min` gives `message`.
pub open spec fn required_rule(value: Option<Seq<char>>, min: nat, field: &str, message: &str) -> Seq<(Seq<char>, Seq<Seq<char>>)> {
    match value {
        None => seq![(field@, Seq::<Seq<char>>::empty())],
        Some(v) => rule(v.len() < min, field, message),
    }
}

pub open spec fn opt_view(v: Option<String>) -> Option<Seq<char>> {
    match v {
        Some(s) => Some(s@),
        None => None,
    }
}

fn push_rule(out: &mut Vec<FieldError>, broken: bool, field: &str, message: &str)
    ensures
        errors_view(final(out)@) == errors_view(old(out)@) + rule(broken, field, message),
{
    if broken {
        let mut messages: Vec<String> = Vec::new();
        messages.push(String::from_str(message));
        let e = FieldError { field: String::from_str(field), messages };
        let ghost before = out@;
        out.push(e);
        assert(crate::claims::labels_view(e.messages@) =~= seq![message@]);
        assert(errors_view(out@) =~= errors_view(before) + rule(broken, field, message));
    } else {
        assert(errors_view(out@) =~= errors_view(out@) + rule(broken, field, message));
    }
}

fn push_required_rule(out: &mut Vec<FieldError>, value: &Option<String>, min: usize, field: &str, message: &str)
    ensures
        errors_view(final(out)@) == errors_view(old(out)@) + required_rule(opt_view(*value), min as nat, field, message),
{
    match value {
        None => {
            let e = FieldError { field: String::from_str(field), messages: Vec::new() };
            let ghost before = out@;
            out.push(e);
            assert(crate::claims::labels_view(e.messages@) =~= Seq::<Seq<char>>::empty());
            assert(errors_view(out@) =~= errors_view(before) + required_rule(opt_view(*value), min as nat, field, message));
        },
        Some(v) => {
            push_rule(out, v.unicode_len() < min, field, message);
        },
    }
}

/// Body of a request that creates a kost.
pub struct KostNewRequest {
    pub kost_name: String,
    pub kost_address: Option<String>,
    pub kost_contact: String,
    pub kost_desc: String,
}

impl KostNewRequest {
    pub open spec fn errors_spec(&self) -> Seq<(Seq<char>, Seq<Seq<char>>)> {
        rule(self.kost_name@.len() < 3, "kost_name", "Kost name must be more than 3 characters")
            + required_rule(opt_view(self.kost_address), 1, "kost_address", "Kost address cannot be empty")
            + rule(!email_valid(self.kost_contact@), "kost_contact", "Email is not valid")
            + rule(self.kost_desc@.len() < 1, "kost_desc", "Kost description cannot be empty")
    }

    /// The fields that break a rule.
    pub fn validate(&self) -> (r: Vec<FieldError>)
        ensures
            errors_view(r@) == self.errors_spec(),
    {
        let mut out: Vec<FieldError> = Vec::new();
        push_rule(&mut out, self.kost_name.unicode_len() < 3, "kost_name", "Kost name must be more than 3 characters");
        push_required_rule(&mut out, &self.kost_address, 1, "kost_address", "Kost address cannot be empty");
        push_rule(&mut out, !is_email(self.kost_contact.as_str()), "kost_contact", "Email is not valid");
        push_rule(&mut out, self.kost_desc.unicode_len() < 1, "kost_desc", "Kost description cannot be empty");
        assert(errors_view(out@) =~= self.errors_spec());
        out
    }
}

/// Body of a request that updates a kost.
pub struct KostUpdateRequest {
    pub kost_name: String,
    pub kost_address: Option<String>,
    pub kost_contact: String,
    pub kost_desc: String,
}

impl KostUpdateRequest {
    pub open spec fn errors_spec(&self) -> Seq<(Seq<char>, Seq<Seq<char>>)> {
        rule(self.kost_name@.len() < 3, "kost_name", "Kost new name must be more than 3 characters")
            + required_rule(opt_view(self.kost_address), 1, "kost_address", "Kost new address cannot be empty")
            + rule(self.kost_desc@.len() < 1, "kost_desc", "Kost description cannot be empty")
    }

    /// The fields that break a rule.
    pub fn validate(&self) -> (r: Vec<FieldError>)
        ensures
            errors_view(r@) == self.errors_spec(),
    {
        let mut out: Vec<FieldError> = Vec::new();
        push_rule(&mut out, self.kost_name.unicode_len() < 3, "kost_name", "Kost new name must be more than 3 characters");
        push_required_rule(&mut out, &self.kost_address, 1, "kost_address", "Kost new address cannot be empty");
        push_rule(&mut out, self.kost_desc.unicode_len() < 1, "kost_desc", "Kost description cannot be empty");
        assert(errors_view(out@) =~= self.errors_spec());
        out
    }
}

/// Body of a login request.
pub struct LoginRequest {
    pub email: String,
    pub password: String,
}

impl LoginRequest {
    pub open spec fn errors_spec(&self) -> Seq<(Seq<char>, Seq<Seq<char>>)> {
        rule(!email_valid(self.email@), "email", "Email is not valid")
            + rule(self.password@.len() < 6, "password", "Password must be 6 characters")
    }

    /// The fields that break a rule.
    pub fn validate(&self) -> (r: Vec<FieldError>)
        ensures
            errors_view(r@) == self.errors_spec(),
    {
        let mut out: Vec<FieldError> = Vec::new();
        push_rule(&mut out, !is_email(self.email.as_str()), "email", "Email is not valid");
        push_rule(&mut out, self.password.unicode_len() < 6, "password", "Password must be 6 characters");
        assert(errors_view(out@) =~= self.errors_spec());
        out
    }
}

/// The role a new account asks for.
#[allow(non_camel_case_types)]
#[derive(Debug, Clone, Copy, PartialEq, Eq, Structural)]
pub enum RegRole {
    OWNER,
    MEMBER,
}

/// Body of a registration request.
pub struct RegisterRequest {
    pub name: String,
    pub email: String,
    pub password: String,
    pub role: Option<RegRole>,
}

impl RegisterRequest {
    pub open spec fn errors_spec(&self) -> Seq<(Seq<char>, Seq<Seq<char>>)> {
        rule(self.name@.len() < 3, "name", "Name must be 3 characters or more")
            + rule(!email_valid(self.email@), "email", "Email is not valid")
            + rule(self.password@.len() < 6, "password", "Password must be 6 characters")
    }

    /// The fields that break a rule.
    pub fn validate(&self) -> (r: Vec<FieldError>)
        ensures
            errors_view(r@) == self.errors_spec(),
    {
        let mut out: Vec<FieldError> = Vec::new();
        push_rule(&mut out, self.name.unicode_len() < 3, "name", "Name must be 3 characters or more");
        push_rule(&mut out, !is_email(self.email.as_str()), "email", "Email is not valid");
        push_rule(&mut out, self.password.unicode_len() < 6, "password", "Password must be 6 characters");
        assert(errors_view(out@) =~= self.errors_spec());
        out
    }
}

/// Occupancy of a room.
#[derive(Debug, Clone, Copy, PartialEq, Eq, Structural)]
pub enum RoomStatus {
    Available,
    Occupied,
    Maintenance,
}

pub open spec fn room_status_text(s: RoomStatus) -> Seq<char> {
    match s {
        RoomStatus::Available => "AVAILABLE"@,
        RoomStatus::Occupied => "OCCUPIED"@,
        RoomStatus::Maintenance => "MAINTENANCE"@,
    }
}

impl RoomStatus {
    /// The stored name of the status.
    pub fn as_text(&self) -> (r: &'static str)
        ensures
            r@ == room_status_text(*self),
    {
        match self {
            RoomStatus::Available => "AVAILABLE",
            RoomStatus::Occupied => "OCCUPIED",
            RoomStatus::Maintenance => "MAINTENANCE",
        }
    }

    /// The status with the given stored name.
    pub fn from_text(s: &str) -> (r: Option<RoomStatus>)
        ensures
            r matches Some(st) ==> room_status_text(st) == s@,
            (exists|st: RoomStatus| room_status_text(st) == s@) ==> r is Some,
    {
        if crate::gate::same_text(s, "AVAILABLE") {
            Some(RoomStatus::Available)
        } else if crate::gate::same_text(s, "OCCUPIED") {
            Some(RoomStatus::Occupied)
        } else if crate::gate::same_text(s, "MAINTENANCE") {
            Some(RoomStatus::Maintenance)
        } else {
            proof {
                assert forall|st: RoomStatus| room_status_text(st) != s@ by {
                    match st {
                        RoomStatus::Available => {},
                        RoomStatus::Occupied => {},
                        RoomStatus::Maintenance => {},
                    }
                }
            }
            None
        }
    }
}

/// Body of a request that creates a room.
pub struct RoomNewRequest {
    pub room_number: u32,
    pub room_vacancy: RoomStatus,
}

impl RoomNewRequest {
    pub open spec fn errors_spec(&self) -> Seq<(Seq<char>, Seq<Seq<char>>)> {
        rule(self.room_number < 1, "room_number", "Room number cannot be empty")
    }

    /// The fields that break a rule.
    pub fn validate(&self) -> (r: Vec<FieldError>)
        ensures
            errors_view(r@) == self.errors_spec(),
    {
        let mut out: Vec<FieldError> = Vec::new();
        push_rule(&mut out, self.room_number < 1, "room_number", "Room number cannot be empty");
        assert(errors_view(out@) =~= self.errors_spec());
        out
    }
}

/// Body of a request that updates a room.
pub struct RoomUpdateRequest {
    pub room_number: u32,
    pub room_vacancy: RoomStatus,
}

impl RoomUpdateRequest {
    pub open spec fn errors_spec(&self) -> Seq<(Seq<char>, Seq<Seq<char>>)> {
        rule(self.room_number < 1, "room_number", "Room number cannot be empty")
    }

    /// The fields that break a rule.
    pub fn validate(&self) -> (r: Vec<FieldError>)
        ensures
            errors_view(r@) == self.errors_spec(),
    {
        let mut out: Vec<FieldError> = Vec::new();
        push_rule(&mut out, self.room_number < 1, "room_number", "Room number cannot be empty");
        assert(errors_view(out@) =~= self.errors_spec());
        out
    }
}

/// Body of a request by which an admin creates a user.
pub struct UserNewRequest {
    pub name: String,
    pub email: String,
    pub password: String,
}

impl UserNewRequest {
    pub open spec fn errors_spec(&self) -> Seq<(Seq<char>, Seq<Seq<char>>)> {
        rule(self.name@.len() < 3, "name", "Name cannot be less than 3 characters")
            + rule(!email_valid(self.email@), "email", "Email is not valid")
            + rule(self.password@.len() < 6, "password", "Password must be 6 characters")
    }

    /// The fields that break a rule.
    pub fn validate(&self) -> (r: Vec<FieldError>)
        ensures
            errors_view(r@) == self.errors_spec(),
    {
        let mut out: Vec<FieldError> = Vec::new();
        push_rule(&mut out, self.name.unicode_len() < 3, "name", "Name cannot be less than 3 characters");
        push_rule(&mut out, !is_email(self.email.as_str()), "email", "Email is not valid");
        push_rule(&mut out, self.password.unicode_len() < 6, "password", "Password must be 6 characters");
        assert(errors_view(out@) =~= self.errors_spec());
        out
    }
}

/// Body of a request that updates a user; an absent or empty password keeps
/// the stored one (see `accounts::prepare_password_update`).
pub struct UserUpdateRequest {
    pub name: String,
    pub email: String,
    pub password: Option<String>,
}

impl UserUpdateRequest {
    pub open spec fn errors_spec(&self) -> Seq<(Seq<char>, Seq<Seq<char>>)> {
        rule(self.name@.len() < 3, "name", "Name cannot be less than 3 characters")
            + rule(!email_valid(self.email@), "email", "Email is not valid")
    }

    /// The fields that break a rule.
    pub fn validate(&self) -> (r: Vec<FieldError>)
        ensures
            errors_view(r@) == self.errors_spec(),
    {
        let mut out: Vec<FieldError> = Vec::new();
        push_rule(&mut out, self.name.unicode_len() < 3, "name", "Name cannot be less than 3 characters");
        push_rule(&mut out, !is_email(self.email.as_str()), "email", "Email is not valid");
        assert(errors_view(out@) =~= self.errors_spec());
        out
    }
}

} // verus!
