//! The QSPI controller's configuration and the framing of its transfers.
//!
//! A transmit transfer sets the LEN register to the number of bits, pushes
//! one or more words into the transmit FIFO, writes `START_TRANSFER` to
//! STATUS, and polls STATUS until `Qspi::poll_transfer` gives an outcome.
//! This module decides the words and the bit counts; driving
//! the registers and waiting is left to the caller. Received words are turned
//! back into bytes here.

use vstd::prelude::*;

verus! {

#[derive(Clone, Copy, Debug, PartialEq, Eq, Structural)]
pub enum QspiError {
    Timeout,
    FifoOverflow,
    FifoUnderflow,
    InvalidParameter,
    Busy,
    TransferFailed,
    InitFailed,
    AlreadyInitialized,
    NotInitialized,
}

#[derive(Clone, Copy, Debug, PartialEq, Eq, Structural)]
pub enum QspiMode {
    Standard,
    Dual,
    Quad,
}

/// Which controller interrupts to enable, and the FIFO thresholds.
#[derive(Clone, Copy, Debug, PartialEq, Eq, Structural)]
pub struct InterruptConfig {
    pub tx_complete_enable: bool,
    pub rx_complete_enable: bool,
    pub tx_threshold_enable: bool,
    pub rx_threshold_enable: bool,
    pub tx_threshold: u8,
    pub rx_threshold: u8,
}

#[derive(Clone, Copy, Debug, PartialEq, Eq, Structural)]
pub struct QspiConfig {
    pub clkdiv: u32,
    pub dummy_cycles: u8,
    pub interrupt_config: Option<InterruptConfig>,
}

impl Default for QspiConfig {
    /// Clock divider 1, no dummy cycles, no interrupts.
    fn default() -> (r: Self)
        ensures
            r == (QspiConfig { clkdiv: 1, dummy_cycles: 0, interrupt_config: None }),
    {
        QspiConfig { clkdiv: 1, dummy_cycles: 0, interrupt_config: None }
    }
}

/// The STATUS value that starts a transfer once its words are in the FIFO.
pub const START_TRANSFER: u32 = 258;

/// Status reads after which an unfinished transfer has timed out.
pub const TRANSFER_POLLS: u32 = 100000;

/// The most bytes one command may receive.
pub const MAX_READ_SIZE: usize = 256;

/// The most bytes one page program may write.
pub const PAGE_SIZE: usize = 256;

/// One transmit transfer: its length in bits and the words for the FIFO.
pub struct Transfer {
    pub bits: u32,
    pub words: Vec<u32>,
}

impl View for Transfer {
    type V = (u32, Seq<u32>);

    open spec fn view(&self) -> (u32, Seq<u32>) {
        (self.bits, self.words@)
    }
}

impl Transfer {
    /// The LEN register's value for this transfer: the bit count in bits
    /// 20 to 31.
    pub fn len_register(&self) -> (r: u32)
        requires
            self.bits < 4096,
        ensures
            r == self.bits * 0x100000,
    {
        let bits = self.bits;
        assert(bits << 20u32 == bits * 0x100000) by (bit_vector)
            requires
                bits < 4096,
        ;
        bits << 20u32
    }
}

/// The word of four bytes, the first one least significant.
pub open spec fn le_u32(b0: u8, b1: u8, b2: u8, b3: u8) -> u32 {
    (b0 as u32) | ((b1 as u32) << 8u32) | ((b2 as u32) << 16u32) | ((b3 as u32) << 24u32)
}

/// The half-word of two bytes, the first one least significant.
pub open spec fn le_u16(b0: u8, b1: u8) -> u16 {
    (b0 as u16) | ((b1 as u16) << 8u16)
}

/// Byte `j` (0 to 3) of `w`, least significant first.
pub open spec fn word_byte(w: u32, j: int) -> u8 {
    ((w >> (8 * j) as u32) & 0xff) as u8
}

/// An 8-bit transfer sends its byte in the top byte of the FIFO word.
pub open spec fn u8_frame(d: u8) -> (u32, Seq<u32>) {
    (8, seq![(d as u32) << 24u32])
}

/// A 16-bit transfer sends its half-word in the top half of the FIFO word.
pub open spec fn u16_frame(d: u16) -> (u32, Seq<u32>) {
    (16, seq![(d as u32) << 16u32])
}

pub open spec fn u32_frame(d: u32) -> (u32, Seq<u32>) {
    (32, seq![d])
}

/// The transfers that send `d`: one 32-bit transfer for each four bytes,
/// little-endian; then one of 8 or 16 bits for a tail of one or two bytes,
/// or a 32-bit one, top byte zero, for a tail of three.
pub open spec fn write_plan(d: Seq<u8>) -> Seq<(u32, Seq<u32>)>
    decreases d.len(),
{
    if d.len() >= 4 {
        seq![u32_frame(le_u32(d[0], d[1], d[2], d[3]))] + write_plan(d.subrange(4, d.len() as int))
    } else if d.len() == 3 {
        seq![u32_frame(le_u32(d[0], d[1], d[2], 0))]
    } else if d.len() == 2 {
        seq![u16_frame(le_u16(d[0], d[1]))]
    } else if d.len() == 1 {
        seq![u8_frame(d[0])]
    } else {
        seq![]
    }
}

/// The QSPI controller, as configured.
pub struct Qspi {
    config: QspiConfig,
}

impl Qspi {
    pub closed spec fn spec_config(&self) -> QspiConfig {
        self.config
    }

    pub fn new(config: QspiConfig) -> (r: Self)
        ensures
            r.spec_config() == config,
    {
        Qspi { config }
    }

    pub fn config(&self) -> (r: QspiConfig)
        ensures
            r == self.spec_config(),
    {
        self.config
    }

    pub fn write_u8(data: u8) -> (r: Transfer)
        ensures
            r@ == u8_frame(data),
    {
        let mut words = Vec::new();
        words.push((data as u32) << 24u32);
        Transfer { bits: 8, words }
    }

    pub fn write_u16(data: u16) -> (r: Transfer)
        ensures
            r@ == u16_frame(data),
    {
        let mut words = Vec::new();
        words.push((data as u32) << 16u32);
        Transfer { bits: 16, words }
    }

    pub fn write_u32(data: u32) -> (r: Transfer)
        ensures
            r@ == u32_frame(data),
    {
        let mut words = Vec::new();
        words.push(data);
        Transfer { bits: 32, words }
    }

    pub fn write_u32x2(data1: u32, data2: u32) -> (r: Transfer)
        ensures
            r@ == (64u32, seq![data1, data2]),
    {
        let mut words = Vec::new();
        words.push(data1);
        words.push(data2);
        proof {
            assert(words@ =~= seq![data1, data2]);
        }
        Transfer { bits: 64, words }
    }

    pub fn write_u32x8(data: [u32; 8]) -> (r: Transfer)
        ensures
            r@ == (256u32, data@),
    {
        Transfer { bits: 256, words: words_of(&data) }
    }

    pub fn write_u32x16(data: [u32; 16]) -> (r: Transfer)
        ensures
            r@ == (512u32, data@),
    {
        Transfer { bits: 512, words: words_of(&data) }
    }

    pub fn write_u32x32(data: [u32; 32]) -> (r: Transfer)
        ensures
            r@ == (1024u32, data@),
    {
        Transfer { bits: 1024, words: words_of(&data) }
    }

    /// The transfers that send `data`, in order.
    pub fn write_bytes(data: &[u8]) -> (r: Vec<Transfer>)
        ensures
            r@.map_values(|t: Transfer| t@) == write_plan(data@),
    {
        let mut r: Vec<Transfer> = Vec::new();
        let mut i: usize = 0;
        proof {
            assert(data@.subrange(0, data@.len() as int) =~= data@);
            assert(r@.map_values(|t: Transfer| t@) =~= Seq::<(u32, Seq<u32>)>::empty());
            assert(r@.map_values(|t: Transfer| t@) + write_plan(data@) =~= write_plan(data@));
        }
        while data.len() - i >= 4
            invariant
                i <= data@.len(),
                r@.map_values(|t: Transfer| t@) + write_plan(data@.subrange(i as int, data@.len() as int))
                    == write_plan(data@),
            decreases data@.len() - i,
        {
            let ghost rest = data@.subrange(i as int, data@.len() as int);
            let word = (data[i] as u32) | ((data[i + 1] as u32) << 8u32) | ((data[i + 2] as u32) << 16u32)
                | ((data[i + 3] as u32) << 24u32);
            let ghost before = r@.map_values(|t: Transfer| t@);
            r.push(Self::write_u32(word));
            proof {
                assert(rest.subrange(4, rest.len() as int) =~= data@.subrange(i + 4, data@.len() as int));
                assert(r@.map_values(|t: Transfer| t@) =~= before.push(u32_frame(word)));
                assert(write_plan(rest) == seq![u32_frame(word)] + write_plan(rest.subrange(4, rest.len() as int)));
                assert(before + write_plan(rest) =~= before.push(u32_frame(word)) + write_plan(
                    data@.subrange(i + 4, data@.len() as int),
                ));
            }
            i += 4;
        }
        let ghost rest = data@.subrange(i as int, data@.len() as int);
        let ghost before = r@.map_values(|t: Transfer| t@);
        let left = data.len() - i;
        if left == 1 {
            r.push(Self::write_u8(data[i]));
        } else if left == 2 {
            let half = (data[i] as u16) | ((data[i + 1] as u16) << 8u16);
            r.push(Self::write_u16(half));
        } else if left == 3 {
            let word = (data[i] as u32) | ((data[i + 1] as u32) << 8u32) | ((data[i + 2] as u32) << 16u32)
                | ((0u8 as u32) << 24u32);
            r.push(Self::write_u32(word));
        }
        proof {
            if left == 0 {
                assert(write_plan(rest) =~= seq![]);
                assert(before + write_plan(rest) =~= before);
            } else {
                assert(r@.map_values(|t: Transfer| t@) =~= before + write_plan(rest));
            }
        }
        r
    }

    /// The controller has finished a transfer: the low half of STATUS is 1.
    pub fn transfer_complete(status: u32) -> (r: bool)
        ensures
            r == (status & 0xffff == 1),
    {
        status & 0xffff == 1
    }

    /// The outcome of waiting for a transfer after the `reads`-th status read
    /// returned `status`: finished, timed out after `TRANSFER_POLLS` reads,
    /// or `None` to read again.
    pub fn poll_transfer(reads: u32, status: u32) -> (r: Option<Result<(), QspiError>>)
        requires
            reads >= 1,
        ensures
            r == if status & 0xffff == 1 {
                Some(Ok::<(), QspiError>(()))
            } else if reads >= TRANSFER_POLLS {
                Some(Err::<(), QspiError>(QspiError::Timeout))
            } else {
                None
            },
    {
        if Self::transfer_complete(status) {
            Some(Ok(()))
        } else if reads >= TRANSFER_POLLS {
            Some(Err(QspiError::Timeout))
        } else {
            None
        }
    }

    /// The transfers of a command: its opcode as one byte, then `tx_data`,
    /// then one zero byte for each of the `rx_len` bytes to be received.
    pub fn command_transfers(command: u8, tx_data: &[u8], rx_len: usize) -> (r: Vec<Transfer>)
        requires
            rx_len <= MAX_READ_SIZE,
        ensures
            r@.map_values(|t: Transfer| t@) == seq![u8_frame(command)] + write_plan(tx_data@) + write_plan(
                Seq::new(rx_len as nat, |k: int| 0u8),
            ),
    {
        let mut r: Vec<Transfer> = Vec::new();
        r.push(Self::write_u8(command));
        let mut tx = Self::write_bytes(tx_data);
        let zeros = vec![0u8; rx_len];
        let mut rx = Self::write_bytes(zeros.as_slice());
        let ghost a = r@.map_values(|t: Transfer| t@);
        let ghost b = tx@.map_values(|t: Transfer| t@);
        let ghost c = rx@.map_values(|t: Transfer| t@);
        r.append(&mut tx);
        let ghost ab = r@;
        r.append(&mut rx);
        proof {
            assert(zeros@ =~= Seq::new(rx_len as nat, |k: int| 0u8));
            assert(r@.map_values(|t: Transfer| t@) =~= a + b + c);
            assert(a =~= seq![u8_frame(command)]);
        }
        r
    }

    /// Fills `data` from received FIFO words, four bytes per word, least
    /// significant byte first.
    pub fn read_bytes(data: &mut [u8], words: &[u32])
        requires
            old(data)@.len() <= 4 * words@.len(),
        ensures
            final(data)@.len() == old(data)@.len(),
            forall|k: int|
                0 <= k < final(data)@.len() ==> #[trigger] final(data)@[k] == word_byte(words@[k / 4], k % 4),
    {
        let mut k: usize = 0;
        while k < data.len()
            invariant
                data@.len() == old(data)@.len(),
                data@.len() <= 4 * words@.len(),
                k <= data@.len(),
                forall|j: int| 0 <= j < k ==> #[trigger] data@[j] == word_byte(words@[j / 4], j % 4),
            decreases data@.len() - k,
        {
            let w = words[k / 4];
            let byte = (#[verifier::truncate] (((w >> ((8 * (k % 4)) as u32)) & 0xff) as u8));
            data[k] = byte;
            k += 1;
        }
    }
}

/// A serial flash behind the controller.
pub struct QspiFlash {
    qspi: Qspi,
}

impl QspiFlash {
    pub const READ_ID: u8 = 0x9f;

    pub const READ_STATUS: u8 = 0x05;

    pub const READ: u8 = 0x03;

    pub const WRITE_ENABLE: u8 = 0x06;

    pub const WRITE_DISABLE: u8 = 0x04;

    pub const SECTOR_ERASE: u8 = 0x20;

    pub const CHIP_ERASE: u8 = 0xc7;

    pub const PAGE_PROGRAM: u8 = 0x02;

    pub const WRITE_STATUS: u8 = 0x01;

    pub closed spec fn spec_qspi(&self) -> Qspi {
        self.qspi
    }

    pub fn new(config: QspiConfig) -> (r: Self)
        ensures
            r.spec_qspi().spec_config() == config,
    {
        QspiFlash { qspi: Qspi::new(config) }
    }

    pub fn qspi(&self) -> (r: &Qspi)
        ensures
            *r == self.spec_qspi(),
    {
        &self.qspi
    }

    /// The flash is idle: the write-in-progress bit of its status is clear.
    pub fn is_idle(status: u8) -> (r: bool)
        ensures
            r == (status & 1 == 0),
    {
        status & 0x01 == 0
    }

    /// How many status polls, one each 10 us, a wait of `timeout_ms` takes.
    pub fn poll_count(timeout_ms: u32) -> (r: u64)
        ensures
            r == timeout_ms * 100,
    {
        timeout_ms as u64 * 100
    }

    /// A page program takes 1 to `PAGE_SIZE` bytes.
    pub fn check_page(data: &[u8]) -> (r: Result<(), QspiError>)
        ensures
            r is Ok <==> 1 <= data@.len() <= PAGE_SIZE,
            r is Err ==> r == Err::<(), QspiError>(QspiError::InvalidParameter),
    {
        if data.len() == 0 || data.len() > PAGE_SIZE {
            Err(QspiError::InvalidParameter)
        } else {
            Ok(())
        }
    }
}

/// The words of `data`, in order.
fn words_of(data: &[u32]) -> (r: Vec<u32>)
    ensures
        r@ == data@,
{
    let mut r: Vec<u32> = Vec::new();
    let mut k: usize = 0;
    while k < data.len()
        invariant
            k <= data@.len(),
            r@ == data@.subrange(0, k as int),
        decreases data@.len() - k,
    {
        r.push(data[k]);
        k += 1;
        assert(r@ =~= data@.subrange(0, k as int));
    }
    assert(data@.subrange(0, data@.len() as int) =~= data@);
    r
}

} // verus!
