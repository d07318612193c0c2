//! Feed the wire parsers garbage and require that they do not panic.

use bluewire::dbus::message::Message;
use bluewire::hci;

/// How many inputs each target tries.
const ROUNDS: usize = 20_000;

/// xorshift64*, so the corpus is reproducible without a dependency.
struct Rng(u64);

impl Rng {
    fn next(&mut self) -> u64 {
        let mut x = self.0;
        x ^= x >> 12;
        x ^= x << 25;
        x ^= x >> 27;
        self.0 = x;
        x.wrapping_mul(0x2545_F491_4F6C_DD1D)
    }

    fn byte(&mut self) -> u8 {
        (self.next() >> 24) as u8
    }

    /// A buffer of up to `max` bytes.
    fn bytes(&mut self, max: usize) -> Vec<u8> {
        let len = (self.next() as usize) % (max + 1);
        (0..len).map(|_| self.byte()).collect()
    }
}

#[test]
fn advertising_data_records_survive_arbitrary_bytes() {
    let mut rng = Rng(0x5EED_1234_ABCD_0005);
    for _ in 0..ROUNDS {
        let mut data = Vec::new();
        while data.len() < 40 {
            data.push(rng.byte());
            data.extend(rng.bytes(6));
        }
        let mut advertisement = hci::Advertisement::default();
        hci::parse_advertising_data(&data, &mut advertisement);
    }
}

#[test]
fn dbus_messages_survive_arbitrary_bytes() {
    let mut rng = Rng(0x5EED_1234_ABCD_0006);
    for _ in 0..ROUNDS {
        let mut buf = rng.bytes(128);
        if buf.len() >= 16 && rng.next() % 2 == 0 {
            buf[0] = if rng.next() % 2 == 0 { b'l' } else { b'B' };
            buf[1] = (rng.next() % 5) as u8;
            buf[3] = 1;
        }
        let _ = Message::parse(&buf);
    }
}

#[test]
fn dbus_messages_with_lying_lengths_are_survivable() {
    let mut rng = Rng(0x5EED_1234_ABCD_0007);
    for _ in 0..ROUNDS {
        let mut buf = vec![0u8; 16];
        buf[0] = b'l';
        buf[1] = 1 + (rng.next() % 4) as u8;
        buf[3] = 1;
        buf[4..8].copy_from_slice(&(rng.next() as u32).to_le_bytes());
        buf[12..16].copy_from_slice(&(rng.next() as u32).to_le_bytes());
        buf.extend(rng.bytes(48));
        let _ = Message::parse(&buf);
    }
}
