//! The network tables: listening ports and open sockets, indexed by
//! small handles, with addresses carried as plain values.

use vstd::prelude::*;

verus! {

/// A listening port slot: the port number, whether a connection may
/// be taken now, and the task to wake when one arrives.
pub struct Port {
    /// The TCP port listened on.
    pub port: u16,
    /// Whether an accept is outstanding.
    pub receivable: bool,
    /// The task waiting in accept, if any.
    pub schedule: Option<usize>,
}

/// A connection record: remote address, both ports, buffered payloads
/// and the TCP sequence state.
pub struct Socket {
    /// The remote IPv4 address.
    pub raddr: u32,
    /// The local port.
    pub lport: u16,
    /// The remote port.
    pub rport: u16,
    /// Payloads received and not yet read, in arrival order.
    pub buffers: Vec<Vec<u8>>,
    /// Our sequence number.
    pub seq: u32,
    /// Our acknowledgement number.
    pub ack: u32,
}

/// The two tables.
pub struct NetTables {
    /// Listening ports by slot.
    pub listen_table: Vec<Option<Port>>,
    /// Connections by slot.
    pub socket_table: Vec<Option<Socket>>,
}

/// The file-descriptor stand-in that keeps a listening slot alive;
/// dropping the descriptor frees the slot.
#[derive(Clone, Copy, PartialEq, Eq, Structural, Debug)]
pub struct PortFd(pub usize);

impl PortFd {
    /// Wrap a listening slot index.
    pub fn new(port_index: usize) -> (r: Self)
        ensures
            r.0 == port_index,
    {
        PortFd(port_index)
    }
}

/// Start listening on a port: the lowest free slot of the listen
/// table, or a fresh one, holds the port, not yet accepting.
pub fn listen(tables: &mut NetTables, port: u16) -> (r: Option<usize>)
    ensures
        final(tables).socket_table == old(tables).socket_table,
        r matches Some(i) ==> {
            &&& i < final(tables).listen_table@.len()
            &&& final(tables).listen_table@[i as int] matches Some(p) && p.port == port
                && !p.receivable && p.schedule is None
            &&& forall|j: int|
                0 <= j < final(tables).listen_table@.len() && j != i
                    ==> #[trigger] final(tables).listen_table@[j] == (if j < old(
                    tables,
                ).listen_table@.len() {
                    old(tables).listen_table@[j]
                } else {
                    None
                })
            &&& forall|j: int| 0 <= j < i ==> (#[trigger] old(tables).listen_table@[j]) is Some
        },
        r is Some,
{
    let count = tables.listen_table.len();
    let mut i: usize = 0;
    let mut found: usize = count;
    while i < count
        invariant
            count == tables.listen_table@.len(),
            i <= count,
            found <= count,
            *tables == *old(tables),
            found < count ==> tables.listen_table@[found as int] is None,
            found == count ==> forall|j: int|
                0 <= j < i ==> (#[trigger] tables.listen_table@[j]) is Some,
            found < count ==> forall|j: int|
                0 <= j < found ==> (#[trigger] tables.listen_table@[j]) is Some,
        decreases count - i,
    {
        if found == count && tables.listen_table[i].is_none() {
            found = i;
        }
        i = i + 1;
    }
    let entry = Port { port, receivable: false, schedule: None };
    if found < count {
        tables.listen_table[found] = Some(entry);
        Some(found)
    } else {
        tables.listen_table.push(Some(entry));
        Some(count)
    }
}

/// Mark a listening slot as accepting, on behalf of the given task.
pub fn accept(tables: &mut NetTables, listen_index: usize, task: usize)
    requires
        listen_index < old(tables).listen_table@.len(),
        old(tables).listen_table@[listen_index as int] is Some,
    ensures
        final(tables).socket_table == old(tables).socket_table,
        final(tables).listen_table@ == old(tables).listen_table@.update(
            listen_index as int,
            final(tables).listen_table@[listen_index as int],
        ),
        final(tables).listen_table@[listen_index as int] matches Some(p) && p.receivable
            && p.schedule == Some(task) && p.port == old(tables).listen_table@[
            listen_index as int]->Some_0.port,
{
    let taken = tables.listen_table[listen_index].take();
    match taken {
        Some(p) => {
            tables.listen_table[listen_index] = Some(
                Port { port: p.port, receivable: true, schedule: Some(task) },
            );
        },
        None => {
        },
    }
}

/// Whether the listening slot still waits for a connection.
pub fn port_acceptable(tables: &NetTables, listen_index: usize) -> (r: bool)
    requires
        listen_index < tables.listen_table@.len(),
    ensures
        r == (tables.listen_table@[listen_index as int] matches Some(p) && p.receivable),
{
    match &tables.listen_table[listen_index] {
        Some(p) => p.receivable,
        None => false,
    }
}

/// The sequence state of a connection, if the slot is in use.
pub fn get_seq_ack_by_index(tables: &NetTables, index: usize) -> (r: Option<(u32, u32)>)
    requires
        index < tables.socket_table@.len(),
    ensures
        r == (match tables.socket_table@[index as int] {
            Some(sock) => Some((sock.seq, sock.ack)),
            None => None::<(u32, u32)>,
        }),
{
    match &tables.socket_table[index] {
        Some(sock) => Some((sock.seq, sock.ack)),
        None => None,
    }
}

/// Overwrite the sequence state of a connection.
pub fn set_seq_ack_by_index(tables: &mut NetTables, index: usize, seq: u32, ack: u32)
    requires
        index < old(tables).socket_table@.len(),
        old(tables).socket_table@[index as int] is Some,
    ensures
        final(tables).listen_table == old(tables).listen_table,
        final(tables).socket_table@ == old(tables).socket_table@.update(
            index as int,
            final(tables).socket_table@[index as int],
        ),
        final(tables).socket_table@[index as int] matches Some(sock) && sock.seq == seq
            && sock.ack == ack && sock.raddr == old(tables).socket_table@[
            index as int]->Some_0.raddr && sock.lport == old(tables).socket_table@[
            index as int]->Some_0.lport && sock.rport == old(tables).socket_table@[
            index as int]->Some_0.rport && sock.buffers == old(tables).socket_table@[
            index as int]->Some_0.buffers,
{
    let taken = tables.socket_table[index].take();
    match taken {
        Some(sock) => {
            tables.socket_table[index] = Some(Socket { seq, ack, ..sock });
        },
        None => {
        },
    }
}

/// Free a connection slot.
pub fn remove_socket(tables: &mut NetTables, index: usize)
    requires
        index < old(tables).socket_table@.len(),
    ensures
        final(tables).listen_table == old(tables).listen_table,
        final(tables).socket_table@ == old(tables).socket_table@.update(index as int, None),
{
    tables.socket_table[index] = None;
}

/// Append a received payload to a connection's buffer queue.
pub fn push_data(tables: &mut NetTables, index: usize, data: Vec<u8>)
    requires
        index < old(tables).socket_table@.len(),
        old(tables).socket_table@[index as int] is Some,
    ensures
        final(tables).listen_table == old(tables).listen_table,
        final(tables).socket_table@ == old(tables).socket_table@.update(
            index as int,
            final(tables).socket_table@[index as int],
        ),
        final(tables).socket_table@[index as int] matches Some(sock) && sock.buffers@ == old(
            tables,
        ).socket_table@[index as int]->Some_0.buffers@.push(data) && sock.seq == old(
            tables,
        ).socket_table@[index as int]->Some_0.seq && sock.ack == old(tables).socket_table@[
            index as int]->Some_0.ack,
{
    let taken = tables.socket_table[index].take();
    match taken {
        Some(mut sock) => {
            sock.buffers.push(data);
            tables.socket_table[index] = Some(sock);
        },
        None => {
        },
    }
}

/// Take the oldest buffered payload of a connection, if any: payloads
/// come out in exactly the order they arrived.
pub fn pop_data(tables: &mut NetTables, index: usize) -> (r: Option<Vec<u8>>)
    requires
        index < old(tables).socket_table@.len(),
        old(tables).socket_table@[index as int] is Some,
    ensures
        final(tables).listen_table == old(tables).listen_table,
        ({
            let bufs = old(tables).socket_table@[index as int]->Some_0.buffers@;
            if bufs.len() > 0 {
                r == Some(bufs[0]) && (final(tables).socket_table@[index as int] matches Some(
                    sock,
                ) && sock.buffers@ == bufs.drop_first())
            } else {
                r is None && final(tables).socket_table@ == old(tables).socket_table@
            }
        }),
{
    let taken = tables.socket_table[index].take();
    match taken {
        Some(mut sock) => {
            if sock.buffers.len() > 0 {
                let data = sock.buffers.remove(0);
                tables.socket_table[index] = Some(sock);
                Some(data)
            } else {
                tables.socket_table[index] = Some(sock);
                proof {
                    assert(tables.socket_table@ =~= old(tables).socket_table@);
                }
                None
            }
        },
        None => {
            proof {
                assert(tables.socket_table@ =~= old(tables).socket_table@);
            }
            None
        },
    }
}

} // verus!
