//! Values the AWS-facing side of the tool computes without talking to the
//! network: role ARNs and tag lookups on instance records.

use vstd::prelude::*;

use crate::strutil::str_eq;

verus! {

/// One instance tag as the inventory logic reads it: a key and a value, each
/// of which the instance listing may omit.
pub struct Tag {
    pub key: Option<String>,
    pub value: Option<String>,
}

/// The value of the first tag in `tags` whose key is `key`; `None` when no
/// tag matches, or when the matching tag has no value.
pub open spec fn spec_extract_tag(tags: Seq<Tag>, key: Seq<char>) -> Option<Seq<char>>
    decreases tags.len(),
{
    if tags.len() == 0 {
        Option::None
    } else {
        match tags[0].key {
            Option::Some(k) => if k@ == key {
                match tags[0].value {
                    Option::Some(v) => Option::Some(v@),
                    Option::None => Option::None,
                }
            } else {
                spec_extract_tag(tags.drop_first(), key)
            },
            Option::None => spec_extract_tag(tags.drop_first(), key),
        }
    }
}

/// Builder for AWS role ARN strings.
pub struct Arn;

impl Arn {
    /// Renders the ARN of `role` in `account`, in the fixed
    /// `arn:aws:iam::<account>:role/<role>` form.
    pub fn make_string(account: String, role: String) -> (r: String)
        ensures
            r@ == "arn:aws:iam::"@ + account@ + ":role/"@ + role@,
    {
        let mut s = String::from_str("arn:aws:iam::");
        s.append(account.as_str());
        s.append(":role/");
        s.append(role.as_str());
        s
    }
}

/// Looks up the value of the first tag whose key equals `key`.
#[verifier::loop_isolation(false)]
pub fn extract_tag_by_key(tags: Option<Vec<Tag>>, key: &str) -> (r: Option<String>)
    ensures
        ({
            let expected = match tags {
                Option::Some(ts) => spec_extract_tag(ts@, key@),
                Option::None => Option::None,
            };
            match r {
                Option::Some(v) => expected == Option::Some(v@),
                Option::None => expected is None,
            }
        }),
{
    match tags {
        Some(ts) => {
            let n = ts.len();
            proof {
                assert(ts@.skip(0) =~= ts@);
            }
            let mut i: usize = 0;
            while i < n
                invariant
                    i <= n,
                    spec_extract_tag(ts@.skip(i as int), key@) == spec_extract_tag(ts@, key@),
                decreases n - i,
            {
                let t = &ts[i];
                let ghost rest = ts@.skip(i as int);
                proof {
                    assert(rest[0] == ts@[i as int]);
                    assert(rest.drop_first() =~= ts@.skip(i as int + 1));
                }
                match &t.key {
                    Some(k) => {
                        if str_eq(k.as_str(), key) {
                            match &t.value {
                                Some(v) => {
                                    return Some(String::from_str(v.as_str()));
                                },
                                None => {
                                    return None;
                                },
                            }
                        }
                    },
                    None => {},
                }
                i += 1;
            }
            proof {
                assert(ts@.skip(n as int) =~= Seq::<Tag>::empty());
            }
            None
        },
        None => None,
    }
}

} // verus!
