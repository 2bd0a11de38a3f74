use hypersieve::dts_parser::{
    assemble_configuration, parse_dts, structure_ok, ConfigError, GuestProperties,
    HypervisorConfiguration,
};

/// Writes a flattened device tree, token by token.
struct TreeWriter {
    structure: Vec<u8>,
    strings: Vec<u8>,
}

impl TreeWriter {
    fn new() -> Self {
        TreeWriter { structure: Vec::new(), strings: Vec::new() }
    }

    fn word(&mut self, x: u32) {
        self.structure.extend_from_slice(&x.to_be_bytes());
    }

    fn pad(&mut self) {
        while self.structure.len() % 4 != 0 {
            self.structure.push(0);
        }
    }

    fn begin(&mut self, name: &str) -> &mut Self {
        self.word(1);
        self.structure.extend_from_slice(name.as_bytes());
        self.structure.push(0);
        self.pad();
        self
    }

    fn end(&mut self) -> &mut Self {
        self.word(2);
        self
    }

    fn prop(&mut self, name: &str, value: &[u8]) -> &mut Self {
        let offset = self.strings.len() as u32;
        self.strings.extend_from_slice(name.as_bytes());
        self.strings.push(0);
        self.word(3);
        self.word(value.len() as u32);
        self.word(offset);
        self.structure.extend_from_slice(value);
        self.pad();
        self
    }

    fn blob(&mut self) -> Vec<u8> {
        self.word(9);
        let header_len = 40u32;
        let reserve_len = 16u32;
        let off_struct = header_len + reserve_len;
        let off_strings = off_struct + self.structure.len() as u32;
        let total = off_strings + self.strings.len() as u32;
        let mut out = Vec::new();
        for x in [
            0xd00d_feedu32,
            total,
            off_struct,
            off_strings,
            header_len,
            17,
            16,
            0,
            self.strings.len() as u32,
            self.structure.len() as u32,
        ] {
            out.extend_from_slice(&x.to_be_bytes());
        }
        out.extend_from_slice(&[0u8; 16]);
        out.extend_from_slice(&self.structure);
        out.extend_from_slice(&self.strings);
        out
    }
}

fn cells(values: &[u32]) -> Vec<u8> {
    values.iter().flat_map(|v| v.to_be_bytes()).collect()
}

fn two_guest_tree() -> Vec<u8> {
    let mut w = TreeWriter::new();
    w.begin("")
        .prop("#address-cells", &cells(&[2]))
        .begin("hypervisor-config")
        .prop("vlen-size", &cells(&[128]))
        .begin("guest@0")
        .prop("entry", &cells(&[0x8020_0000]))
        .prop("hart-capacity", &cells(&[2]))
        .prop("path", b"guest.bin\0")
        .prop("assigned-harts", &cells(&[0, 1]))
        .end()
        .begin("guest@1")
        .prop("entry", &0x1_0000_0000u64.to_be_bytes())
        .prop("hart-capacity", &cells(&[1]))
        .prop("path", b"other.bin\0")
        .prop("assigned-harts", &cells(&[2, 0]))
        .end()
        .end()
        .end();
    w.blob()
}

fn guest_props(entry: u32, capacity: u32, path: &[u8], assigned: Option<&[u32]>) -> GuestProperties {
    GuestProperties {
        entry: Some(cells(&[entry])),
        hart_capacity: Some(cells(&[capacity])),
        path: Some(path.to_vec()),
        assigned_harts: assigned.map(cells),
    }
}

fn assemble(guests: Vec<GuestProperties>) -> Result<HypervisorConfiguration, ConfigError> {
    assemble_configuration(&Some(cells(&[256])), &guests)
}

#[test]
fn parse_reads_guests_and_pins_harts() {
    let config = parse_dts(&two_guest_tree()).unwrap();
    assert_eq!(config.vlen, 128);
    assert_eq!(config.guests.len(), 2);
    assert_eq!(config.guests[0].entry_gpa, 0x8020_0000);
    assert_eq!(config.guests[0].hart_capacity, 2);
    assert_eq!(config.guests[0].path, "guest.bin");
    assert_eq!(config.guests[0].assigned_harts, vec![Some(0), Some(1)]);
    assert_eq!(config.guests[1].entry_gpa, 0x1_0000_0000);
    assert_eq!(config.guests[1].path, "other.bin");
    assert_eq!(config.guests[1].assigned_harts, vec![Some(2), Some(0)]);
    assert_eq!(config.total_hart_capacity, 3);
    assert_eq!(config.max_supported_harts_per_guest, 2);
    assert_eq!(config.max_supported_assigned_harts_per_guest, 4);
    assert_eq!(config.harts.len(), 3);
    for (id, hart) in config.harts.iter().enumerate() {
        assert_eq!(hart.hart_id, id);
    }
    assert_eq!(config.harts[0].guests, vec![Some(0), Some(1)]);
    assert_eq!(config.harts[1].guests, vec![Some(0)]);
    assert_eq!(config.harts[2].guests, vec![Some(1)]);
}

#[test]
fn parse_refuses_a_bad_blob() {
    let mut blob = two_guest_tree();
    blob[0] = 0;
    assert_eq!(parse_dts(&blob).err(), Some(ConfigError::InvalidBlob));
    assert_eq!(parse_dts(&[0u8; 12]).err(), Some(ConfigError::InvalidBlob));
    let mut short = two_guest_tree();
    short.truncate(short.len() - 1);
    assert_eq!(parse_dts(&short).err(), Some(ConfigError::InvalidBlob));
}

#[test]
fn parse_needs_the_hypervisor_node() {
    let mut w = TreeWriter::new();
    w.begin("").begin("cpus").end().end();
    assert_eq!(parse_dts(&w.blob()).err(), Some(ConfigError::MissingHypervisorConfig));
}

#[test]
fn parse_needs_a_numeric_vector_length() {
    let mut w = TreeWriter::new();
    w.begin("").begin("hypervisor-config").end().end();
    assert_eq!(parse_dts(&w.blob()).err(), Some(ConfigError::MissingVlen));
    let mut w = TreeWriter::new();
    w.begin("").begin("hypervisor-config").prop("vlen-size", &[1, 0]).end().end();
    assert_eq!(parse_dts(&w.blob()).err(), Some(ConfigError::VlenNotInteger));
}

#[test]
fn parse_of_a_configuration_without_guests() {
    let mut w = TreeWriter::new();
    w.begin("")
        .begin("hypervisor-config")
        .prop("vlen-size", &256u64.to_be_bytes())
        .end()
        .end();
    let config = parse_dts(&w.blob()).unwrap();
    assert_eq!(config.vlen, 256);
    assert!(config.guests.is_empty());
    assert!(config.harts.is_empty());
    assert_eq!(config.total_hart_capacity, 0);
    assert_eq!(config.max_supported_harts_per_guest, 0);
}

#[test]
fn parse_reports_a_guest_error() {
    let mut w = TreeWriter::new();
    w.begin("")
        .begin("hypervisor-config")
        .prop("vlen-size", &cells(&[128]))
        .begin("guest@0")
        .prop("hart-capacity", &cells(&[1]))
        .end()
        .end()
        .end();
    assert_eq!(parse_dts(&w.blob()).err(), Some(ConfigError::MissingEntry(0)));
}

#[test]
fn assemble_without_assigned_harts() {
    let config = assemble(vec![guest_props(0x1000, 3, b"a", None)]).unwrap();
    assert_eq!(config.vlen, 256);
    assert_eq!(config.total_hart_capacity, 3);
    assert_eq!(config.max_supported_assigned_harts_per_guest, 0);
    assert!(config.guests[0].assigned_harts.is_empty());
    assert_eq!(config.harts.len(), 3);
    assert!(config.harts.iter().all(|h| h.guests.is_empty()));
}

#[test]
fn assemble_lists_a_hart_once_per_mention() {
    let config = assemble(vec![
        guest_props(0x1000, 1, b"a", Some(&[1, 1])),
        guest_props(0x2000, 1, b"b", Some(&[1])),
    ])
    .unwrap();
    assert_eq!(config.harts[0].guests, Vec::<Option<usize>>::new());
    assert_eq!(config.harts[1].guests, vec![Some(0), Some(0), Some(1)]);
}

#[test]
fn assemble_trims_the_path_and_reads_wide_numbers() {
    let mut g = guest_props(0, 1, b"dir/image.bin\0\0", None);
    g.entry = Some(0x8000_0000_1234u64.to_be_bytes().to_vec());
    let config = assemble(vec![g]).unwrap();
    assert_eq!(config.guests[0].path, "dir/image.bin");
    assert_eq!(config.guests[0].entry_gpa, 0x8000_0000_1234);
}

#[test]
fn assemble_reports_the_vector_length_first() {
    let bad_guest = GuestProperties { entry: None, hart_capacity: None, path: None, assigned_harts: None };
    assert_eq!(
        assemble_configuration(&None, &vec![bad_guest.clone()]).err(),
        Some(ConfigError::MissingVlen)
    );
    assert_eq!(
        assemble_configuration(&Some(vec![0; 3]), &vec![bad_guest]).err(),
        Some(ConfigError::VlenNotInteger)
    );
}

#[test]
fn assemble_reports_each_missing_or_malformed_property() {
    let good = guest_props(0x1000, 1, b"a", None);
    let mut g = good.clone();
    g.entry = None;
    assert_eq!(assemble(vec![good.clone(), g]).err(), Some(ConfigError::MissingEntry(1)));
    let mut g = good.clone();
    g.entry = Some(vec![1, 2]);
    assert_eq!(assemble(vec![g]).err(), Some(ConfigError::EntryNotInteger(0)));
    let mut g = good.clone();
    g.hart_capacity = None;
    assert_eq!(assemble(vec![g]).err(), Some(ConfigError::MissingHartCapacity(0)));
    let mut g = good.clone();
    g.hart_capacity = Some(vec![0; 5]);
    assert_eq!(assemble(vec![g]).err(), Some(ConfigError::HartCapacityNotInteger(0)));
    let mut g = good.clone();
    g.path = None;
    assert_eq!(assemble(vec![g]).err(), Some(ConfigError::MissingPath(0)));
    let mut g = good.clone();
    g.path = Some(vec![0xff, 0xfe]);
    assert_eq!(assemble(vec![g]).err(), Some(ConfigError::PathNotText(0)));
    let mut g = good.clone();
    g.assigned_harts = Some(vec![0, 0, 0, 1, 0]);
    assert_eq!(assemble(vec![g]).err(), Some(ConfigError::AssignedHartsMisaligned(0)));
}

#[test]
fn assemble_reports_an_overflowing_capacity() {
    let mut big = guest_props(0, 0, b"a", None);
    big.hart_capacity = Some(u64::MAX.to_be_bytes().to_vec());
    let one = guest_props(0, 1, b"b", None);
    assert_eq!(assemble(vec![one, big]).err(), Some(ConfigError::CapacityOverflow(1)));
}

#[test]
fn assemble_reports_an_unknown_hart_after_all_guests() {
    let err = assemble(vec![
        guest_props(0, 1, b"a", Some(&[0, 4, 9])),
        guest_props(0, 1, b"b", Some(&[7])),
    ])
    .err();
    assert_eq!(err, Some(ConfigError::UnknownHart(0, 4)));
    // Guest errors come before the hart check.
    let mut broken = guest_props(0, 1, b"b", None);
    broken.path = None;
    let err = assemble(vec![guest_props(0, 1, b"a", Some(&[5])), broken]).err();
    assert_eq!(err, Some(ConfigError::MissingPath(1)));
}

#[test]
fn parse_refuses_a_broken_structure_block() {
    // The header is good, but the first token of the structure block is none
    // of the tokens of the format.
    let mut blob = two_guest_tree();
    assert!(structure_ok(&blob));
    blob[56 + 3] = 7;
    assert!(!structure_ok(&blob));
    assert_eq!(parse_dts(&blob).err(), Some(ConfigError::InvalidBlob));
    // A node that is never closed.
    let mut w = TreeWriter::new();
    w.begin("").begin("hypervisor-config").end();
    let unclosed = w.blob();
    assert!(!structure_ok(&unclosed));
    assert_eq!(parse_dts(&unclosed).err(), Some(ConfigError::InvalidBlob));
}

#[test]
fn parse_refuses_a_property_name_outside_the_strings_block() {
    let mut w = TreeWriter::new();
    w.begin("").begin("hypervisor-config");
    w.word(3);
    w.word(4);
    w.word(1000);
    w.word(128);
    w.end().end();
    let blob = w.blob();
    assert!(!structure_ok(&blob));
    assert_eq!(parse_dts(&blob).err(), Some(ConfigError::InvalidBlob));
}

#[test]
fn parse_refuses_a_property_name_that_is_a_path() {
    // An alias named like the node searched for could send the search round
    // in a circle.
    let mut w = TreeWriter::new();
    w.begin("")
        .begin("aliases")
        .prop("/hypervisor-config", b"/hypervisor-config\0\0")
        .end()
        .end();
    let blob = w.blob();
    assert!(!structure_ok(&blob));
    assert_eq!(parse_dts(&blob).err(), Some(ConfigError::InvalidBlob));
}
