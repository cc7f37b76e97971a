use static_linker::error::{ErrorKind, LinkError};
use static_linker::linker::{Linker, SimpleSymbol, WriteSymbol};
use static_linker::module::{Module, Symbol};

fn symbol(name: Option<&str>, defined: bool, address: u64, size: u64) -> Symbol {
    Symbol {
        name: name.map(String::from),
        defined,
        address,
        size,
    }
}

fn record(offset: u32, symbol: u8) -> Vec<u8> {
    let mut bytes = offset.to_le_bytes().to_vec();
    bytes.extend_from_slice(&[0, symbol, 0, 0]);
    bytes
}

#[test]
fn every_failure_has_its_class() {
    assert_eq!(LinkError::Unparseable.kind(), ErrorKind::Format);
    assert_eq!(LinkError::MissingRelocationSection.kind(), ErrorKind::Format);
    assert_eq!(LinkError::MissingCodeSection.kind(), ErrorKind::Format);
    assert_eq!(LinkError::TruncatedRelocations.kind(), ErrorKind::Format);
    assert_eq!(
        LinkError::DuplicateSymbol(String::from("foo")).kind(),
        ErrorKind::DuplicateDefinition
    );
    assert_eq!(LinkError::EntryTooSmall.kind(), ErrorKind::RangeViolation);
    assert_eq!(LinkError::PatchOutOfRange.kind(), ErrorKind::RangeViolation);
    assert_eq!(LinkError::AddressTooBig.kind(), ErrorKind::RangeViolation);
    assert_eq!(LinkError::MissingEntry.kind(), ErrorKind::MissingEntry);
    assert_eq!(LinkError::UnnamedTarget.kind(), ErrorKind::UndefinedSymbol);
    assert_eq!(
        LinkError::UndefinedSymbol(String::from("foo")).kind(),
        ErrorKind::UndefinedSymbol
    );
}

#[test]
fn ordinals_run_on_from_module_to_module() {
    let m1 = Module {
        symbols: vec![
            symbol(Some("main"), true, 0, 4),
            symbol(None, false, 3, 1),
        ],
        code: vec![1, 2, 3, 4],
        relocations: vec![],
    };
    let m2 = Module {
        symbols: vec![symbol(Some("f"), true, 2, 6)],
        code: vec![5; 8],
        relocations: vec![],
    };
    let linker = Linker::new().add_module(&m1).unwrap().add_module(&m2).unwrap();
    assert_eq!(
        linker.symbols(),
        &vec![
            SimpleSymbol {
                name: Some(String::from("main")),
                symbol_index: 0,
                address: 0,
                size: 4
            },
            SimpleSymbol {
                name: None,
                symbol_index: 1,
                address: 3,
                size: 1
            },
            SimpleSymbol {
                name: Some(String::from("f")),
                symbol_index: 2,
                address: 2,
                size: 6
            },
        ]
    );
}

#[test]
fn the_halt_is_written_when_the_module_is_merged() {
    let m1 = Module {
        symbols: vec![symbol(Some("main"), true, 0, 4)],
        code: vec![1, 2, 3, 4, 5],
        relocations: record(0, 0),
    };
    let linker = Linker::new().add_module(&m1).unwrap();
    assert_eq!(linker.code(), &vec![1, 2, 0xFF, 0xFF, 5]);
}

#[test]
fn relocations_wait_with_their_place_in_the_merged_code() {
    let m1 = Module {
        symbols: vec![symbol(Some("main"), true, 0, 2)],
        code: vec![0; 6],
        relocations: record(4, 0),
    };
    let m2 = Module {
        symbols: vec![symbol(Some("a"), false, 0, 0), symbol(Some("b"), true, 0, 0)],
        code: vec![0; 20],
        relocations: [record(0, 1), record(8, 0), record(u32::MAX, 2)].concat(),
    };
    let linker = Linker::new().add_module(&m1).unwrap().add_module(&m2).unwrap();
    assert_eq!(
        linker.relocations(),
        &vec![
            WriteSymbol {
                symbol_index: Some(0),
                cs_offset: 4
            },
            WriteSymbol {
                symbol_index: Some(2),
                cs_offset: 6
            },
            WriteSymbol {
                symbol_index: Some(1),
                cs_offset: 14
            },
            WriteSymbol {
                symbol_index: None,
                cs_offset: 6 + u32::MAX as u128
            },
        ]
    );
}
