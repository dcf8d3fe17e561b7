//! The INFO response.

use vstd::prelude::*;

use crate::config::ServerInformation;
use crate::messages::push_bytes;
use crate::num::{spec_dec_digits, u64_to_dec};

verus! {

/// The replication block, line by line, ending each line with a newline.
pub open spec fn spec_info_response(
    role: Seq<u8>,
    connected: u64,
    repl_id: Seq<u8>,
    repl_offset: u64,
) -> Seq<u8> {
    seq![35u8, 32u8, 82u8, 101u8, 112u8, 108u8, 105u8, 99u8, 97u8, 116u8, 105u8, 111u8, 110u8, 10u8, 114u8, 111u8, 108u8, 101u8, 58u8] + role + seq![10u8] + seq![99u8, 111u8, 110u8, 110u8, 101u8, 99u8, 116u8, 101u8, 100u8, 95u8, 99u8, 108u8, 105u8, 101u8, 110u8, 116u8, 115u8, 58u8] + spec_dec_digits(connected as nat) + seq![10u8]
        + seq![109u8, 97u8, 115u8, 116u8, 101u8, 114u8, 95u8, 114u8, 101u8, 112u8, 108u8, 105u8, 100u8, 58u8] + repl_id + seq![10u8] + seq![109u8, 97u8, 115u8, 116u8, 101u8, 114u8, 95u8, 114u8, 101u8, 112u8, 108u8, 95u8, 111u8, 102u8, 102u8, 115u8, 101u8, 116u8, 58u8] + spec_dec_digits(
        repl_offset as nat,
    ) + seq![10u8]
}

/// Render the `INFO replication` body.
pub fn build_replication_response(info: &ServerInformation, connected: u64) -> (r: Vec<u8>)
    ensures
        r@ == spec_info_response(info.role.spec_name(), connected, info.repl_id@, info.repl_offset),
{
    let mut out: Vec<u8> = Vec::new();
    let head: Vec<u8> = vec![35, 32, 82, 101, 112, 108, 105, 99, 97, 116, 105, 111, 110, 10, 114, 111, 108, 101, 58];
    proof {
        assert(head@ =~= seq![35u8, 32u8, 82u8, 101u8, 112u8, 108u8, 105u8, 99u8, 97u8, 116u8, 105u8, 111u8, 110u8, 10u8, 114u8, 111u8, 108u8, 101u8, 58u8]);
    }
    push_bytes(&mut out, head.as_slice());
    let role = info.role.role_name();
    push_bytes(&mut out, role.as_slice());
    out.push(10);
    let l1: Vec<u8> = vec![99, 111, 110, 110, 101, 99, 116, 101, 100, 95, 99, 108, 105, 101, 110, 116, 115, 58];
    proof {
        assert(l1@ =~= seq![99u8, 111u8, 110u8, 110u8, 101u8, 99u8, 116u8, 101u8, 100u8, 95u8, 99u8, 108u8, 105u8, 101u8, 110u8, 116u8, 115u8, 58u8]);
    }
    push_bytes(&mut out, l1.as_slice());
    let c = u64_to_dec(connected);
    push_bytes(&mut out, c.as_slice());
    out.push(10);
    let l2: Vec<u8> = vec![109, 97, 115, 116, 101, 114, 95, 114, 101, 112, 108, 105, 100, 58];
    proof {
        assert(l2@ =~= seq![109u8, 97u8, 115u8, 116u8, 101u8, 114u8, 95u8, 114u8, 101u8, 112u8, 108u8, 105u8, 100u8, 58u8]);
    }
    push_bytes(&mut out, l2.as_slice());
    push_bytes(&mut out, info.repl_id.as_slice());
    out.push(10);
    let l3: Vec<u8> = vec![109, 97, 115, 116, 101, 114, 95, 114, 101, 112, 108, 95, 111, 102, 102, 115, 101, 116, 58];
    proof {
        assert(l3@ =~= seq![109u8, 97u8, 115u8, 116u8, 101u8, 114u8, 95u8, 114u8, 101u8, 112u8, 108u8, 95u8, 111u8, 102u8, 102u8, 115u8, 101u8, 116u8, 58u8]);
    }
    push_bytes(&mut out, l3.as_slice());
    let o = u64_to_dec(info.repl_offset);
    push_bytes(&mut out, o.as_slice());
    out.push(10);
    proof {
        assert(out@ =~= spec_info_response(
            info.role.spec_name(),
            connected,
            info.repl_id@,
            info.repl_offset,
        ));
    }
    out
}

} // verus!
