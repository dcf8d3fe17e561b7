//! Startup configuration and process-wide server facts.

use vstd::prelude::*;

use crate::messages::copy_bytes;
use crate::util::bytes_eq;

verus! {

/// Whether this process accepts writes or follows an upstream master; the
/// replica variant carries the upstream address as `host:port` text.
#[derive(Debug)]
pub enum ReplicationRole {
    Master,
    Replication(Vec<u8>),
}

pub open spec fn master_bytes() -> Seq<u8> {
    seq![109u8, 97u8, 115u8, 116u8, 101u8, 114u8]
}

pub open spec fn slave_bytes() -> Seq<u8> {
    seq![115u8, 108u8, 97u8, 118u8, 101u8]
}

impl ReplicationRole {
    pub open spec fn spec_name(&self) -> Seq<u8> {
        match self {
            ReplicationRole::Master => master_bytes(),
            ReplicationRole::Replication(a) => slave_bytes(),
        }
    }

    /// The wire name of the role; a replica reports `slave`.
    pub fn role_name(&self) -> (r: Vec<u8>)
        ensures
            r@ == self.spec_name(),
    {
        match self {
            ReplicationRole::Master => {
                let r: Vec<u8> = vec![109, 97, 115, 116, 101, 114];
                proof {
                    assert(r@ =~= master_bytes());
                }
                r
            },
            ReplicationRole::Replication(a) => {
                let r: Vec<u8> = vec![115, 108, 97, 118, 101];
                proof {
                    assert(r@ =~= slave_bytes());
                }
                r
            },
        }
    }
}

/// The replication id every master of this build announces.
pub open spec fn repl_id_bytes() -> Seq<u8> {
    seq![56u8, 51u8, 55u8, 49u8, 98u8, 52u8, 102u8, 98u8, 49u8, 49u8, 53u8, 53u8, 98u8, 55u8, 49u8, 102u8, 52u8, 97u8, 48u8, 52u8, 100u8, 51u8, 101u8, 49u8, 98u8, 99u8, 51u8, 101u8, 49u8, 56u8, 99u8, 52u8, 97u8, 57u8, 57u8, 48u8, 97u8, 101u8, 101u8, 98u8]
}

/// Process-wide facts: the role, the announced replication id and offset,
/// the listening port, and the snapshot location options.
#[derive(Debug)]
pub struct ServerInformation {
    pub role: ReplicationRole,
    pub repl_id: Vec<u8>,
    pub repl_offset: u64,
    pub port: u16,
    pub dir: Option<Vec<u8>>,
    pub dbfilename: Option<Vec<u8>>,
}

impl ServerInformation {
    pub fn new(role: ReplicationRole, port: u16, dir: Option<Vec<u8>>, dbfilename: Option<
        Vec<u8>,
    >) -> (r: ServerInformation)
        ensures
            r.role == role,
            r.repl_id@ == repl_id_bytes(),
            r.repl_offset == 0,
            r.port == port,
            r.dir == dir,
            r.dbfilename == dbfilename,
    {
        let repl_id: Vec<u8> = vec![56, 51, 55, 49, 98, 52, 102, 98, 49, 49, 53, 53, 98, 55, 49, 102, 52, 97, 48, 52, 100, 51, 101, 49, 98, 99, 51, 101, 49, 56, 99, 52, 97, 57, 57, 48, 97, 101, 101, 98];
        proof {
            assert(repl_id@ =~= repl_id_bytes());
        }
        ServerInformation { role, repl_id, repl_offset: 0, port, dir, dbfilename }
    }

    /// What `CONFIG GET` answers: the two snapshot options by name.
    pub open spec fn spec_get_value(&self, key: Seq<u8>) -> Option<Seq<u8>> {
        if key == seq![100u8, 105u8, 114u8] {
            match self.dir {
                Some(d) => Some(d@),
                None => None,
            }
        } else if key == seq![100u8, 98u8, 102u8, 105u8, 108u8, 101u8, 110u8, 97u8, 109u8, 101u8] {
            match self.dbfilename {
                Some(d) => Some(d@),
                None => None,
            }
        } else {
            None
        }
    }

    /// Answer `CONFIG GET` for the two snapshot options.
    pub fn get_value(&self, key: &Vec<u8>) -> (r: Option<Vec<u8>>)
        ensures
            (match (r, self.spec_get_value(key@)) {
                (Some(v), Some(d)) => v@ == d,
                (None, None) => true,
                _ => false,
            }),
{
        let dir_key: Vec<u8> = vec![100, 105, 114];
        let db_key: Vec<u8> = vec![100, 98, 102, 105, 108, 101, 110, 97, 109, 101];
        proof {
            assert(dir_key@ =~= seq![100u8, 105u8, 114u8]);
            assert(db_key@ =~= seq![100u8, 98u8, 102u8, 105u8, 108u8, 101u8, 110u8, 97u8, 109u8, 101u8]);
        }
        if bytes_eq(key.as_slice(), dir_key.as_slice()) {
            match &self.dir {
                Some(d) => Some(copy_bytes(d)),
                None => None,
            }
        } else if bytes_eq(key.as_slice(), db_key.as_slice()) {
            match &self.dbfilename {
                Some(d) => Some(copy_bytes(d)),
                None => None,
            }
        } else {
            None
        }
    }
}

} // verus!
