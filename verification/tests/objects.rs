use object::write::{Object, Symbol as WrittenSymbol, SymbolSection};
use object::{Architecture, BinaryFormat, Endianness, SectionKind, SymbolFlags, SymbolKind, SymbolScope};
use static_linker::error::LinkError;
use static_linker::ingest::{assemble_module, read_module, CODE_SECTION, RELOCATION_SECTION};
use static_linker::linker::{link, link_objects, Linker};
use static_linker::module::{Module, Symbol};

/// An ELF object file with the given sections and symbols; defined symbols
/// lie in the section called `home`.
fn object_file(
    sections: &[(&str, &[u8])],
    home: &str,
    symbols: &[(&str, bool, u64, u64)],
) -> Vec<u8> {
    let mut object = Object::new(BinaryFormat::Elf, Architecture::Msp430, Endianness::Little);
    let mut home_id = None;
    for (name, bytes) in sections {
        let id = object.add_section(Vec::new(), name.as_bytes().to_vec(), SectionKind::Data);
        object.set_section_data(id, bytes.to_vec(), 1);
        if *name == home {
            home_id = Some(id);
        }
    }
    for (name, defined, address, size) in symbols {
        let section = if *defined {
            SymbolSection::Section(home_id.unwrap())
        } else {
            SymbolSection::Undefined
        };
        object.add_symbol(WrittenSymbol {
            name: name.as_bytes().to_vec(),
            value: *address,
            size: *size,
            kind: SymbolKind::Text,
            scope: SymbolScope::Linkage,
            weak: false,
            section,
            flags: SymbolFlags::None,
        });
    }
    object.write().unwrap()
}

fn record(offset: u32, symbol: u8) -> Vec<u8> {
    let mut bytes = offset.to_le_bytes().to_vec();
    bytes.extend_from_slice(&[0, symbol, 0, 0]);
    bytes
}

fn symbol(name: &str, defined: bool, address: u64, size: u64) -> Symbol {
    Symbol {
        name: Some(String::from(name)),
        defined,
        address,
        size,
    }
}

#[test]
fn the_sections_have_their_names() {
    assert_eq!(CODE_SECTION, ".cs");
    assert_eq!(RELOCATION_SECTION, ".rels.cs");
}

#[test]
fn a_module_is_read_out_of_an_object_file() {
    let code = [1u8, 2, 3, 4, 5, 6, 7, 8, 9, 10];
    let relocations = record(0, 1);
    let data = object_file(
        &[(".cs", &code), (".rels.cs", &relocations), (".other", &[9, 9])],
        ".cs",
        &[("main", true, 0, 10), ("foo", false, 0, 0), ("bar", true, 4, 2)],
    );
    let module = read_module(&data).unwrap();
    assert_eq!(
        module,
        Module {
            symbols: vec![
                symbol("main", true, 0, 10),
                symbol("foo", false, 0, 0),
                symbol("bar", true, 4, 2),
            ],
            code: code.to_vec(),
            relocations,
        }
    );
}

#[test]
fn bytes_that_are_no_object_file_are_refused() {
    assert_eq!(read_module(&[]), Err(LinkError::Unparseable));
    assert_eq!(read_module(b"not an object file"), Err(LinkError::Unparseable));
    assert_eq!(read_module(&[0x7F, b'E', b'L', b'F']), Err(LinkError::Unparseable));
}

#[test]
fn a_module_without_relocation_section_is_refused() {
    let data = object_file(&[(".cs", &[0, 0])], ".cs", &[("main", true, 0, 2)]);
    assert_eq!(read_module(&data), Err(LinkError::MissingRelocationSection));
    let data = object_file(&[], "", &[]);
    assert_eq!(read_module(&data), Err(LinkError::MissingRelocationSection));
}

#[test]
fn a_module_without_code_section_is_refused() {
    let data = object_file(&[(".rels.cs", &[]), (".text", &[0, 0])], ".text", &[("main", true, 0, 2)]);
    assert_eq!(read_module(&data), Err(LinkError::MissingCodeSection));
}

#[test]
fn empty_sections_are_sections() {
    let data = object_file(&[(".cs", &[]), (".rels.cs", &[])], ".cs", &[]);
    assert_eq!(
        read_module(&data),
        Ok(Module {
            symbols: vec![],
            code: vec![],
            relocations: vec![],
        })
    );
}

#[test]
fn a_module_is_put_together_from_its_parts() {
    let symbols = vec![symbol("main", true, 0, 2)];
    assert_eq!(
        assemble_module(Some(symbols.clone()), Some(vec![1]), Some(vec![2, 3])),
        Ok(Module {
            symbols: symbols.clone(),
            code: vec![2, 3],
            relocations: vec![1],
        })
    );
    assert_eq!(
        assemble_module(None, Some(vec![1]), Some(vec![2, 3])),
        Err(LinkError::Unparseable)
    );
    assert_eq!(assemble_module(None, None, None), Err(LinkError::Unparseable));
    assert_eq!(
        assemble_module(Some(symbols.clone()), None, Some(vec![2, 3])),
        Err(LinkError::MissingRelocationSection)
    );
    assert_eq!(
        assemble_module(Some(symbols.clone()), None, None),
        Err(LinkError::MissingRelocationSection)
    );
    assert_eq!(
        assemble_module(Some(symbols), Some(vec![1]), None),
        Err(LinkError::MissingCodeSection)
    );
}

#[test]
fn object_files_are_linked_into_one_image() {
    let first = object_file(
        &[(".cs", &[1u8; 12]), (".rels.cs", &record(2, 1))],
        ".cs",
        &[("main", true, 0, 12), ("helper", false, 0, 0)],
    );
    let second = object_file(
        &[(".cs", &[2u8; 6]), (".rels.cs", &[])],
        ".cs",
        &[("helper", true, 2, 4)],
    );
    let image = link_objects(&vec![first.clone(), second.clone()]).unwrap();
    // "helper" lies at 12 + 2: unit (14 + 10) / 2 - 1 = 11.
    let expected: Vec<u8> = [
        &[0x6D, 0xB0, 0x1C, 0x00, 0x3D, 0x00, 0x1C, 0x04, 0xBC, 0x00][..],
        &[1, 1],
        &[0x6D, 0xB0, 0x1C, 0x00, 0x3D, 0x00, 0x1C, 11],
        &[0xFF, 0xFF],
        &[2; 6],
    ]
    .concat();
    assert_eq!(image, expected);
    let modules = vec![read_module(&first).unwrap(), read_module(&second).unwrap()];
    assert_eq!(link(&modules), Ok(expected));
}

#[test]
fn linking_object_files_twice_yields_the_same_image() {
    let first = object_file(
        &[(".cs", &[1u8; 12]), (".rels.cs", &record(2, 1))],
        ".cs",
        &[("main", true, 0, 12), ("helper", true, 10, 0)],
    );
    let objects = vec![first];
    let a = link_objects(&objects);
    let b = link_objects(&objects);
    assert!(a.is_ok());
    assert_eq!(a, b);
}

#[test]
fn one_object_file_with_main_alone() {
    let code: Vec<u8> = (1..=12).collect();
    let data = object_file(
        &[(".cs", &code), (".rels.cs", &[])],
        ".cs",
        &[("main", true, 0, 12)],
    );
    let image = link_objects(&vec![data]).unwrap();
    assert_eq!(image.len(), 22);
    assert_eq!(&image[10..20], &code[..10]);
    assert_eq!(&image[20..], &[0xFF, 0xFF]);
}

#[test]
fn two_object_files_that_define_foo_are_refused() {
    let first = object_file(
        &[(".cs", &[0u8; 4]), (".rels.cs", &[])],
        ".cs",
        &[("main", true, 0, 2), ("foo", true, 2, 2)],
    );
    let second = object_file(
        &[(".cs", &[0u8; 2]), (".rels.cs", &[])],
        ".cs",
        &[("foo", true, 0, 2)],
    );
    assert_eq!(
        link_objects(&vec![first, second]),
        Err(LinkError::DuplicateSymbol(String::from("foo")))
    );
}

#[test]
fn a_file_is_read_only_after_the_files_before_it_are_merged() {
    let good = object_file(
        &[(".cs", &[0u8; 2]), (".rels.cs", &[])],
        ".cs",
        &[("main", true, 0, 2)],
    );
    let garbage = b"garbage".to_vec();
    assert_eq!(
        link_objects(&vec![good.clone(), good.clone(), garbage.clone()]),
        Err(LinkError::DuplicateSymbol(String::from("main")))
    );
    assert_eq!(
        link_objects(&vec![good.clone(), garbage.clone(), good.clone()]),
        Err(LinkError::Unparseable)
    );
    assert_eq!(link_objects(&vec![garbage]), Err(LinkError::Unparseable));
    assert_eq!(link_objects(&vec![]), Err(LinkError::MissingEntry));
}

#[test]
fn an_object_file_is_merged_like_its_module() {
    let data = object_file(
        &[(".cs", &[5u8; 8]), (".rels.cs", &[])],
        ".cs",
        &[("main", true, 2, 4), ("extern", false, 0, 0)],
    );
    let by_file = Linker::new().add_object(&data).unwrap();
    let by_module = Linker::new()
        .add_module(&read_module(&data).unwrap())
        .unwrap();
    assert_eq!(by_file.code_len(), 8);
    assert_eq!(by_file.symbol_count(), 2);
    assert_eq!(by_file.symbol_address("main"), Some(2));
    assert_eq!(by_file.symbol_address("extern"), None);
    assert_eq!(by_file.finish(), by_module.finish());
    match Linker::new().add_object(b"junk") {
        Err(error) => assert_eq!(error, LinkError::Unparseable),
        Ok(_) => panic!("junk was accepted"),
    }
}
