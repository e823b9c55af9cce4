//! Small shared rules about system calls and the text that they take.

use vstd::prelude::*;

verus! {

/// The kind of error that a failed system call left behind.
#[derive(Debug, Clone, Copy, PartialEq, Eq, Structural)]
pub enum Errno {
    /// `EEXIST`
    Exists,
    /// `ENOSYS`
    NotImplemented,
    /// Any other error, by its number.
    Other(i32),
}

/// What a system call that returned `result` and left `errno` behind has come to.
pub open spec fn call_outcome(result: i32, errno: Errno) -> Result<(), Errno> {
    if result == 0 {
        Ok(())
    } else {
        Err(errno)
    }
}

/// A system call that returns `result` has succeeded exactly if that is zero; otherwise it has
/// failed with `errno`.
pub fn syscall_ok(result: i32, errno: Errno) -> (outcome: Result<(), Errno>)
    ensures
        outcome == call_outcome(result, errno),
{
    if result == 0 {
        Ok(())
    } else {
        Err(errno)
    }
}

/// Zero is success whatever is left behind, and every other result, positive or negative, is a
/// failure with just the error that is left behind.
pub proof fn only_zero_is_success(result: i32, errno: Errno)
    ensures
        call_outcome(result, errno) is Ok <==> !(result < 0) && !(result > 0),
        call_outcome(result, errno) matches Err(error) ==> error == errno,
{
}

/// The form in which a system call takes a path.
pub open spec fn c_bytes(path: Seq<u8>) -> Option<Seq<u8>> {
    if path.contains(0) {
        None
    } else {
        Some(path.push(0))
    }
}

/// A path as a system call takes it: its bytes with a NUL behind them. A path that holds a NUL
/// has no such form.
pub fn c_path(path: &[u8]) -> (result: Option<Vec<u8>>)
    ensures
        match result {
            Some(bytes) => c_bytes(path@) == Some(bytes@),
            None => c_bytes(path@) is None,
        },
{
    let mut bytes: Vec<u8> = Vec::new();
    let mut i: usize = 0;
    while i < path.len()
        invariant
            i <= path@.len(),
            bytes@ == path@.take(i as int),
            !bytes@.contains(0),
        decreases path@.len() - i,
    {
        let byte = path[i];
        if byte == 0 {
            assert(path@[i as int] == 0);
            return None;
        }
        let ghost before = bytes@;
        bytes.push(byte);
        assert(bytes@ =~= path@.take(i + 1));
        assert(!bytes@.contains(0)) by {
            if bytes@.contains(0) {
                let k = choose|k: int| 0 <= k < bytes@.len() && bytes@[k] == 0;
                assert(before[k] == 0);
            }
        }
        i += 1;
    }
    assert(path@.take(path@.len() as int) =~= path@);
    bytes.push(0);
    Some(bytes)
}

/// A system call takes every path that holds no NUL, however long: all its bytes, and behind them
/// the only NUL.
pub proof fn c_bytes_end_at_their_only_nul(path: Seq<u8>)
    ensures
        c_bytes(path) is Some <==> forall|i: int| 0 <= i < path.len() ==> #[trigger] path[i] > 0,
        c_bytes(path) matches Some(bytes) ==> {
            &&& bytes.len() == path.len() + 1
            &&& forall|i: int| 0 <= i < path.len() ==> bytes[i] == #[trigger] path[i]
            &&& forall|i: int| 0 <= i < bytes.len() ==> (#[trigger] bytes[i] == 0 <==> i
                == path.len())
        },
{
    if path.contains(0) {
        let i = choose|i: int| 0 <= i < path.len() && path[i] == 0;
        assert(!(path[i] > 0));
    } else {
        assert forall|i: int| 0 <= i < path.len() implies #[trigger] path[i] > 0 by {
            let byte: u8 = path[i];
            assert(path.contains(byte));
            assert(byte != 0);
        }
    }
}

} // verus!
