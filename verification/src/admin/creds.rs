//! The administrator's login name and password, from the settings or made up
//! at start-up.
use crate::text::{all_ascii, copy_range, is_boundary, lemma_ascii_valid, lemma_valid_subrange, sbytes, str_bytes, str_to_string, string_from_valid};
use vstd::prelude::*;
use vstd::utf8::valid_utf8;

verus! {

broadcast use vstd::utf8::encode_utf8_valid_utf8;

/// A lower-case hexadecimal digit.
pub open spec fn is_lower_hex(c: u8) -> bool {
    (48 <= c <= 57) || (97 <= c <= 102)
}

/// The hyphenated text of a version 4 UUID: 36 bytes, `-` at 8, 13, 18 and
/// 23, a lower-case hexadecimal digit everywhere else, the version digit `4`
/// at 14 and the variant digit (`8`, `9`, `a` or `b`) at 19.
pub open spec fn uuid_text(b: Seq<u8>) -> bool {
    &&& b.len() == 36
    &&& b[14] == 52
    &&& (b[19] == 56 || b[19] == 57 || b[19] == 97 || b[19] == 98)
    &&& forall|i: int|
        0 <= i < 36 ==> if i == 8 || i == 13 || i == 18 || i == 23 {
            #[trigger] b[i] == 45
        } else {
            is_lower_hex(b[i])
        }
}

/// `uuid::Uuid::new_v4().to_string()` from the uuid crate: a random version 4
/// UUID (RFC 4122 variant) in its hyphenated lower-case form.  Only the form
/// is stated; the other digits are random.
#[verifier::external_body]
pub(crate) fn uuid_v4_text() -> (r: String)
    ensures
        uuid_text(sbytes(r@)),
{
    uuid::Uuid::new_v4().to_string()
}

/// The administrator's login.
pub struct AdminCredentials {
    pub username: String,
    pub password: String,
}

/// `admin`
pub open spec fn default_admin_name() -> Seq<u8> {
    seq!['a' as u8, 'd' as u8, 'm' as u8, 'i' as u8, 'n' as u8]
}

/// The login the settings give, when both name and password are set; else
/// the name (`admin` when unset) with the first 12 bytes of `secret` as password.
pub open spec fn credentials_from(user: Seq<u8>, pass: Seq<u8>, secret: Seq<u8>) -> (Seq<u8>, Seq<u8>) {
    if user.len() > 0 && pass.len() > 0 {
        (user, pass)
    } else {
        (if user.len() == 0 {
            default_admin_name()
        } else {
            user
        }, secret.subrange(0, 12))
    }
}

proof fn lemma_uuid_prefix(b: Seq<u8>)
    requires
        uuid_text(b),
    ensures
        is_boundary(b, 12),
        all_ascii(b.subrange(0, 12)),
        valid_utf8(b.subrange(0, 12)),
{
    assert(b[12] < 128) by {
        assert(is_lower_hex(b[12]));
    }
    let p = b.subrange(0, 12);
    assert forall|i: int| 0 <= i < p.len() implies #[trigger] p[i] < 128 by {
        assert(p[i] == b[i]);
        if i == 8 {
            assert(b[8] == 45);
        } else {
            assert(is_lower_hex(b[i]));
        }
    }
    lemma_ascii_valid(p);
}

impl AdminCredentials {
    /// The login from the settings `user` and `pass`, or, where either is
    /// unset, the name (`admin` when unset) with the first 12 bytes of `secret`.
    pub fn from_settings(user: &str, pass: &str, secret: &str) -> (r: AdminCredentials)
        requires
            (sbytes(user@).len() == 0 || sbytes(pass@).len() == 0) ==> (sbytes(secret@).len() >= 12
                && is_boundary(sbytes(secret@), 12)),
        ensures
            (sbytes(r.username@), sbytes(r.password@)) == credentials_from(
                sbytes(user@),
                sbytes(pass@),
                sbytes(secret@),
            ),
    {
        let ub = str_bytes(user);
        let pb = str_bytes(pass);
        if ub.len() > 0 && pb.len() > 0 {
            return AdminCredentials { username: str_to_string(user), password: str_to_string(pass) };
        }
        let username = if ub.len() == 0 {
            let na: [u8; 5] = ['a' as u8, 'd' as u8, 'm' as u8, 'i' as u8, 'n' as u8];
            let n: &[u8] = &na;
            proof {
                assert(n@ == default_admin_name());
                lemma_ascii_valid(n@);
                assert(n@.subrange(0, 5) =~= n@);
            }
            string_from_valid(copy_range(n, 0, 5))
        } else {
            str_to_string(user)
        };
        let sb = str_bytes(secret);
        proof {
            crate::text::lemma_valid_subrange(sb@, 0, 12);
        }
        let password = string_from_valid(copy_range(sb, 0, 12));
        AdminCredentials { username, password }
    }

    /// The login for the settings `user` and `pass`; where either is unset, a
    /// 12-character password is made from a fresh random UUID.  The flag says
    /// whether it was.
    pub fn resolve(user: &str, pass: &str) -> (r: (AdminCredentials, bool))
        ensures
            r.1 == (sbytes(user@).len() == 0 || sbytes(pass@).len() == 0),
            !r.1 ==> r.0.username@ == user@ && r.0.password@ == pass@,
            r.1 ==> sbytes(r.0.username@) == (if sbytes(user@).len() == 0 {
                default_admin_name()
            } else {
                sbytes(user@)
            }),
            r.1 ==> exists|s: Seq<u8>| uuid_text(s) && sbytes(r.0.password@) == s.subrange(0, 12),
    {
        let generated = str_bytes(user).len() == 0 || str_bytes(pass).len() == 0;
        if !generated {
            return (AdminCredentials { username: str_to_string(user), password: str_to_string(pass) }, false);
        }
        let secret = uuid_v4_text();
        proof {
            lemma_uuid_prefix(sbytes(secret@));
        }
        let c = AdminCredentials::from_settings(user, pass, secret.as_str());
        assert(uuid_text(sbytes(secret@)) && sbytes(c.password@) == sbytes(secret@).subrange(0, 12));
        (c, true)
    }
}

} // verus!
