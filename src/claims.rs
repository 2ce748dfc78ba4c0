//! Identity claims: the decoded token payload that travels with one request.
use vstd::prelude::*;

verus! {

/// Identity claims of a caller.
///
/// `sub` is the caller's user id (a UUID held as its 128-bit value), `exp` the
/// Unix time in seconds after which the claims are no longer accepted.
pub struct Claims {
    pub sub: u128,
    pub exp: u64,
    pub role: Option<String>,
    pub permissions: Vec<String>,
}

/// Mathematical model of [`Claims`].
pub struct ClaimsView {
    pub sub: u128,
    pub exp: u64,
    pub role: Option<Seq<char>>,
    pub permissions: Seq<Seq<char>>,
}

pub open spec fn role_view(role: Option<String>) -> Option<Seq<char>> {
    match role {
        Some(r) => Some(r@),
        None => None,
    }
}

pub open spec fn labels_view(v: Seq<String>) -> Seq<Seq<char>> {
    v.map_values(|s: String| s@)
}

impl View for Claims {
    type V = ClaimsView;

    open spec fn view(&self) -> ClaimsView {
        ClaimsView {
            sub: self.sub,
            exp: self.exp,
            role: role_view(self.role),
            permissions: labels_view(self.permissions@),
        }
    }
}

/// The set of capability tokens a caller holds; order and repetition do not matter.
pub open spec fn permission_set(c: ClaimsView) -> Set<Seq<char>> {
    c.permissions.to_set()
}

/// Clones a list of labels, keeping each one's text.
pub fn clone_labels(v: &Vec<String>) -> (r: Vec<String>)
    ensures
        labels_view(r@) == labels_view(v@),
{
    let mut r: Vec<String> = Vec::new();
    let mut i: usize = 0;
    while i < v.len()
        invariant
            i <= v@.len(),
            labels_view(r@) == labels_view(v@.take(i as int)),
        decreases v@.len() - i,
    {
        let ghost before = r@;
        let s = v[i].clone();
        r.push(s);
        proof {
            assert(v@.take(i + 1) =~= v@.take(i as int).push(v@[i as int]));
            assert(r@ =~= before.push(s));
            assert(labels_view(r@) =~= labels_view(before).push(s@));
            assert(labels_view(v@.take(i + 1)) =~= labels_view(v@.take(i as int)).push(v@[i as int]@));
        }
        i = i + 1;
    }
    assert(v@.take(v@.len() as int) =~= v@);
    r
}

} // verus!
