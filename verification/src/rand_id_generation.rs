//! Temporary-name generation without a module namespace: a fixed prefix
//! followed by the mangling of a unique time-ordered token.

use crate::escape;
use vstd::prelude::*;

verus! {

/// Produces a fresh temporary variable name: `_tmp_` followed by the
/// mangling of a unique token.  Uniqueness within a run comes from the
/// token source; no contract states it.
pub fn get_temp_variable_name() -> (r: String)
    ensures
        exists|u: Seq<char>|
            #[trigger] escape::uuid_text(u) && r@ == escape::tmp_prefix()
                + escape::mangle_chars(u),
{
    let id = escape::fresh_token();
    let encoded = escape::_string_to_escape_to_c_ansi_id(id.as_str());
    let mut res = String::new();
    res.append("_tmp_");
    res.append(encoded.as_str());
    proof {
        reveal_strlit("_tmp_");
        assert("_tmp_"@ =~= escape::tmp_prefix());
        assert(escape::uuid_text(id@) && res@ == escape::tmp_prefix() + escape::mangle_chars(id@));
    }
    res
}

} // verus!
