//! Whatever the bytes are, the parsers return.

use broodcasc::blte::{decode, BlteHeader};
use broodcasc::cdnindex::ArchiveIndex;
use broodcasc::config::{BuildConfig, BuildInfo};
use broodcasc::encoding::EncodingTable;
use broodcasc::idx::LocalIndex;
use broodcasc::root::RootFile;
use broodcasc::seeds::blte::blte_seeds;
use broodcasc::seeds::encoding::encoding_seeds;
use broodcasc::seeds::idx::idx_seeds;
use broodcasc::seeds::tables::{config_seeds, root_seeds};
use broodcasc::seeds::targets::worth_decoding;
use broodcasc::tact::{Cdns, Versions};

struct Numbers(u64);

impl Numbers {
    fn next(&mut self) -> u64 {
        self.0 ^= self.0 << 13;
        self.0 ^= self.0 >> 7;
        self.0 ^= self.0 << 17;
        self.0
    }
}

fn parse_all(data: &[u8]) {
    let _ = BlteHeader::parse(data);
    if worth_decoding(data) {
        let _ = decode(data);
    }
    let _ = EncodingTable::parse(data);
    let _ = LocalIndex::from_files(&[data]);
    let _ = RootFile::parse(data);
    let _ = ArchiveIndex::parse(data);
    let text = String::from_utf8_lossy(data);
    let _ = BuildConfig::parse(&text);
    let _ = BuildInfo::parse(&text);
    let _ = Versions::parse(&text);
    let _ = Cdns::parse(&text);
}

#[test]
fn arbitrary_bytes_are_parsed_or_refused() {
    let mut numbers = Numbers(0x9E37_79B9_7F4A_7C15);
    for _ in 0..300 {
        let len = (numbers.next() % 600) as usize;
        let data: Vec<u8> = (0..len).map(|_| numbers.next() as u8).collect();
        parse_all(&data);
    }
}

#[test]
fn flipped_and_truncated_seeds_are_parsed_or_refused() {
    let mut numbers = Numbers(0x2545_F491_4F6C_DD1D);
    let seeds = [
        blte_seeds(),
        encoding_seeds(),
        idx_seeds(),
        root_seeds(),
        config_seeds(),
    ];
    for (_, seed) in seeds.into_iter().flatten() {
        for _ in 0..40 {
            let mut data = seed.clone();
            for _ in 0..1 + numbers.next() % 5 {
                let at = numbers.next() as usize % data.len();
                data[at] ^= numbers.next() as u8 | 1;
            }
            parse_all(&data);
            let cut = numbers.next() as usize % (seed.len() + 1);
            parse_all(&seed[..cut]);
        }
    }
}
