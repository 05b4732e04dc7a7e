//! License-expression normalization and per-package license resolution.
//!
//! A manifest may write alternatives with `/` instead of `OR`. The
//! normalizer rewrites slashes, parenthesizes any expression that contains
//! an operator, and canonicalizes the common `MIT OR Apache-2.0` pair.
//! Operator detection is a plain substring match, kept on purpose: a
//! license name that merely contains `OR` or `AND` is wrapped too.

use crate::text::{contains_seq, contains_str, replace_all, replace_str};
use vstd::prelude::*;

verus! {

/// `s` wrapped in the grouping parentheses the normalizer uses.
pub open spec fn grouped(s: Seq<char>) -> Seq<char> {
    "( "@ + s + " )"@
}

/// The normalized form of a license expression: every ` / ` and then every
/// remaining `/` becomes ` OR `; a result containing the substring `OR` or
/// `AND` is wrapped in `( ... )`; the exact string `( MIT OR Apache-2.0 )`
/// is canonicalized to `( Apache-2.0 OR MIT )`.
pub open spec fn normalized_license(s: Seq<char>) -> Seq<char> {
    let replaced = replace_all(replace_all(s, " / "@, " OR "@), "/"@, " OR "@);
    let wrapped = if contains_seq(replaced, "OR"@) || contains_seq(replaced, "AND"@) {
        grouped(replaced)
    } else {
        replaced
    };
    if wrapped == "( MIT OR Apache-2.0 )"@ {
        "( Apache-2.0 OR MIT )"@
    } else {
        wrapped
    }
}

/// Rewrites a manifest's license expression into its normalized form.
pub fn normalize_license(lic: &str) -> (r: String)
    ensures
        r@ == normalized_license(lic@),
{
    let step1 = replace_str(lic, " / ", " OR ");
    let step2 = replace_str(step1.as_str(), "/", " OR ");
    let ghost replaced = step2@;
    let wrapped = if contains_str(step2.as_str(), "OR") || contains_str(step2.as_str(), "AND") {
        let mut w = String::from_str("( ");
        w.append(step2.as_str());
        w.append(" )");
        proof {
            assert(w@ =~= grouped(replaced));
        }
        w
    } else {
        step2
    };
    let canonical = String::from_str("( MIT OR Apache-2.0 )");
    if wrapped == canonical {
        String::from_str("( Apache-2.0 OR MIT )")
    } else {
        wrapped
    }
}

/// The outcome of looking for a package's license in its own manifest.
pub enum LicenseResolution {
    /// The manifest carried a license expression; here in normalized form.
    Resolved(String),
    /// No expression, but a license file was named; its relative path is
    /// handed back for manual inspection.
    CheckFile(String),
    /// Neither an expression nor a file: nothing can be said.
    Undetermined,
}

/// Decides what a package's manifest yields: a present license expression
/// wins and is normalized; otherwise a named license file is reported for
/// manual review; otherwise the license stays undetermined.
pub fn resolve_license(license: Option<String>, license_file: Option<String>) -> (r:
    LicenseResolution)
    ensures
        license matches Some(lic) ==> r matches LicenseResolution::Resolved(n) && n@
            == normalized_license(lic@),
        license is None && license_file is Some ==> r == LicenseResolution::CheckFile(
            license_file->0,
        ),
        license is None && license_file is None ==> r == LicenseResolution::Undetermined,
{
    match license {
        Some(lic) => LicenseResolution::Resolved(normalize_license(lic.as_str())),
        None => match license_file {
            Some(f) => LicenseResolution::CheckFile(f),
            None => LicenseResolution::Undetermined,
        },
    }
}

} // verus!
