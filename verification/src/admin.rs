//! Restarting the program with administrator rights.

use vstd::prelude::*;
use crate::text::{concat2, concat3, signed_decimal, signed_decimal_string};

verus! {

/// The error when the program's own path cannot be read.
pub open spec fn exe_path_error(e: Seq<char>) -> Seq<char> {
    "无法获取当前程序路径: "@ + e
}

/// The error when the elevated start is refused with `code`.
pub open spec fn elevation_error(code: i64) -> Seq<char> {
    "请求管理员权限失败（错误码 "@ + signed_decimal(code as int) + "）"@
}

/// `relaunch_as_admin`: starts the program at `exe` (the program's own path, or why it
/// could not be read) again with the `runas` verb through `run_as`, which answers the
/// shell's result code; a code of 32 or less is a failure.
pub fn relaunch_as_admin<F: Fn(String) -> i64>(exe: Result<String, String>, run_as: &F) -> (r:
    Result<(), String>)
    requires
        forall|s: String| call_requires(run_as, (s,)),
    ensures
        match exe {
            Err(e) => r matches Err(m) && m@ == exe_path_error(e@),
            Ok(p) => exists|s: String, code: i64|
                s@ == p@ && #[trigger] call_ensures(run_as, (s,), code) && if code <= 32 {
                    r matches Err(m) && m@ == elevation_error(code)
                } else {
                    r is Ok
                },
        },
{
    match exe {
        Err(e) => Err(concat2("无法获取当前程序路径: ", e.as_str())),
        Ok(p) => {
            let ghost sent = p;
            let code = run_as(p);
            proof {
                assert(call_ensures(run_as, (sent,), code));
            }
            if code <= 32 {
                let digits = signed_decimal_string(code);
                Err(concat3("请求管理员权限失败（错误码 ", digits.as_str(), "）"))
            } else {
                Ok(())
            }
        },
    }
}

} // verus!
