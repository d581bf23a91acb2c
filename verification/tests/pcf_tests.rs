use gmpublished_backend::pcf::{parse_pcf, PcfError, PcfNumber};

/// Minimal binary DMX writer covering the layouts the parser reads.
struct Writer {
    bytes: Vec<u8>,
    encoding_version: u32,
    strings: Vec<String>,
}

impl Writer {
    fn new(encoding_version: u32, format_version: u32) -> Self {
        let header = format!(
            "<!-- dmx encoding binary {encoding_version} format pcf {format_version} -->\n"
        );
        let mut bytes = header.into_bytes();
        bytes.push(0);
        Self {
            bytes,
            encoding_version,
            strings: Vec::new(),
        }
    }

    fn intern(&mut self, value: &str) -> u32 {
        if let Some(index) = self.strings.iter().position(|entry| entry == value) {
            return index as u32;
        }
        self.strings.push(value.to_owned());
        (self.strings.len() - 1) as u32
    }

    fn write_dict(&mut self) {
        if self.encoding_version < 2 {
            return;
        }
        if self.encoding_version >= 4 {
            self.bytes
                .extend_from_slice(&(self.strings.len() as u32).to_le_bytes());
        } else {
            self.bytes
                .extend_from_slice(&(self.strings.len() as u16).to_le_bytes());
        }
        for entry in self.strings.clone() {
            self.bytes.extend_from_slice(entry.as_bytes());
            self.bytes.push(0);
        }
    }

    fn dict_ref(&mut self, index: u32) {
        if self.encoding_version >= 5 {
            self.bytes.extend_from_slice(&index.to_le_bytes());
        } else {
            self.bytes.extend_from_slice(&(index as u16).to_le_bytes());
        }
    }

    fn dict_string(&mut self, value: &str) {
        if self.encoding_version < 2 {
            self.cstr(value);
        } else {
            let index = self.intern(value);
            self.dict_ref(index);
        }
    }

    fn cstr(&mut self, value: &str) {
        self.bytes.extend_from_slice(value.as_bytes());
        self.bytes.push(0);
    }

    fn i32(&mut self, value: i32) {
        self.bytes.extend_from_slice(&value.to_le_bytes());
    }

    fn f32(&mut self, value: f32) {
        self.bytes.extend_from_slice(&value.to_le_bytes());
    }
}

struct TestAttr {
    name: &'static str,
    write: fn(&mut Writer),
    type_id: u8,
}

struct TestElement {
    class_name: &'static str,
    name: &'static str,
    attrs: Vec<TestAttr>,
}

fn build(encoding_version: u32, elements: &[TestElement], value_strings: &[&str]) -> Vec<u8> {
    let mut writer = Writer::new(encoding_version, 1);
    if encoding_version >= 2 {
        for element in elements {
            writer.intern(element.class_name);
            if encoding_version >= 4 {
                writer.intern(element.name);
            }
            for attr in &element.attrs {
                writer.intern(attr.name);
            }
        }
        if encoding_version >= 4 {
            for value in value_strings {
                writer.intern(value);
            }
        }
    }
    writer.write_dict();

    writer.i32(elements.len() as i32);
    for element in elements {
        writer.dict_string(element.class_name);
        if encoding_version >= 4 {
            writer.dict_string(element.name);
        } else {
            writer.cstr(element.name);
        }
        writer.bytes.extend_from_slice(&[0u8; 16]);
    }
    for element in elements {
        writer.i32(element.attrs.len() as i32);
        for attr in &element.attrs {
            writer.dict_string(attr.name);
            writer.bytes.push(attr.type_id);
            (attr.write)(&mut writer);
        }
    }
    writer.bytes
}

fn particle_fixture(encoding_version: u32) -> Vec<u8> {
    build(
        encoding_version,
        &[
            TestElement {
                class_name: "DmElement",
                name: "untitled",
                attrs: vec![TestAttr {
                    name: "particleSystemDefinitions",
                    type_id: 15,
                    write: |writer| {
                        writer.i32(2);
                        writer.i32(1);
                        writer.i32(4);
                    },
                }],
            },
            TestElement {
                class_name: "DmeParticleSystemDefinition",
                name: "explosion_core",
                attrs: vec![
                    TestAttr {
                        name: "max_particles",
                        type_id: 2,
                        write: |writer| writer.i32(64),
                    },
                    TestAttr {
                        name: "radius",
                        type_id: 3,
                        write: |writer| writer.f32(5.5),
                    },
                    TestAttr {
                        name: "color",
                        type_id: 8,
                        write: |writer| {
                            writer.bytes.extend_from_slice(&[255, 128, 0, 255]);
                        },
                    },
                    TestAttr {
                        name: "emitters",
                        type_id: 15,
                        write: |writer| {
                            writer.i32(1);
                            writer.i32(2);
                        },
                    },
                    TestAttr {
                        name: "children",
                        type_id: 15,
                        write: |writer| {
                            writer.i32(1);
                            writer.i32(3);
                        },
                    },
                ],
            },
            TestElement {
                class_name: "DmeParticleOperator",
                name: "emit_continuously",
                attrs: vec![TestAttr {
                    name: "emission_rate",
                    type_id: 3,
                    write: |writer| writer.f32(120.0),
                }],
            },
            TestElement {
                class_name: "DmeParticleChild",
                name: "child ref",
                attrs: vec![
                    TestAttr {
                        name: "child",
                        type_id: 1,
                        write: |writer| writer.i32(4),
                    },
                    TestAttr {
                        name: "delay",
                        type_id: 3,
                        write: |writer| writer.f32(0.25),
                    },
                ],
            },
            TestElement {
                class_name: "DmeParticleSystemDefinition",
                name: "explosion_sparks",
                attrs: vec![],
            },
        ],
        &[],
    )
}

fn assert_fixture_parses(encoding_version: u32) {
    let bytes = particle_fixture(encoding_version);
    let file = parse_pcf(&bytes).expect("fixture parses");
    assert_eq!(file.encoding_version, encoding_version);
    assert_eq!(file.systems.len(), 2);

    let core = &file.systems[0];
    assert_eq!(core.name, "explosion_core");
    assert_eq!(core.attributes.get_int("max_particles"), Some(64));
    assert_eq!(core.attributes.get_float("radius"), Some(PcfNumber::Float(5.5f32.to_bits())));
    assert_eq!(core.attributes.get_color("color"), Some([255, 128, 0, 255]));
    assert_eq!(core.emitters.len(), 1);
    assert_eq!(core.emitters[0].name, "emit_continuously");
    assert_eq!(
        core.emitters[0].attributes.get_float("emission_rate"),
        Some(PcfNumber::Float(120.0f32.to_bits()))
    );
    assert_eq!(core.children.len(), 1);
    assert_eq!(core.children[0].name, "explosion_sparks");
    assert_eq!(core.children[0].system_index, Some(1));
    assert_eq!(core.children[0].delay, PcfNumber::Float(0.25f32.to_bits()));

    assert_eq!(file.systems[1].name, "explosion_sparks");
}

#[test]
fn parses_binary_v1_fixture() {
    assert_fixture_parses(1);
}

#[test]
fn parses_binary_v2_fixture() {
    assert_fixture_parses(2);
}

#[test]
fn parses_binary_v4_fixture() {
    assert_fixture_parses(4);
}

#[test]
fn parses_binary_v5_fixture() {
    assert_fixture_parses(5);
}

#[test]
fn rejects_text_encoding() {
    let mut bytes = b"<!-- dmx encoding keyvalues2 1 format pcf 1 -->\n".to_vec();
    bytes.push(0);
    assert!(matches!(
        parse_pcf(&bytes),
        Err(PcfError::TextEncodingUnsupported)
    ));
}

#[test]
fn rejects_non_dmx() {
    assert!(matches!(parse_pcf(b"GMAD\x00"), Err(PcfError::NotDmx)));
    assert!(matches!(parse_pcf(b"GMAD\x03"), Err(PcfError::Truncated)));
    assert!(matches!(parse_pcf(b""), Err(PcfError::Truncated)));
}

#[test]
fn survives_truncation_everywhere() {
    let bytes = particle_fixture(2);
    for len in 0..bytes.len() {
        let _ = parse_pcf(&bytes[..len]);
    }
}

#[test]
fn rejects_absurd_counts() {
    let mut writer = Writer::new(1, 1);
    writer.i32(i32::MAX);
    assert!(parse_pcf(&writer.bytes).is_err());
}

#[test]
fn string_scalar_uses_dict_only_in_v4_plus() {
    for encoding_version in [2, 5] {
        let bytes = build(
            encoding_version,
            &[
                TestElement {
                    class_name: "DmElement",
                    name: "root",
                    attrs: vec![TestAttr {
                        name: "particleSystemDefinitions",
                        type_id: 15,
                        write: |writer| {
                            writer.i32(1);
                            writer.i32(1);
                        },
                    }],
                },
                TestElement {
                    class_name: "DmeParticleSystemDefinition",
                    name: "system",
                    attrs: vec![TestAttr {
                        name: "material",
                        type_id: 5,
                        write: |writer| {
                            if writer.encoding_version >= 4 {
                                let index = writer.intern("particle/wisp01.vmt");
                                writer.dict_ref(index);
                            } else {
                                writer.cstr("particle/wisp01.vmt");
                            }
                        },
                    }],
                },
            ],
            &["particle/wisp01.vmt"],
        );
        let file = parse_pcf(&bytes).expect("fixture parses");
        assert_eq!(
            file.systems[0].material(),
            Some("particle/wisp01.vmt"),
            "encoding v{encoding_version}"
        );
    }
}

#[test]
fn unsupported_encoding_version_is_reported() {
    let mut bytes = b"<!-- dmx encoding binary 9 format pcf 1 -->\n".to_vec();
    bytes.push(0);
    assert!(matches!(
        parse_pcf(&bytes),
        Err(PcfError::UnsupportedEncodingVersion(9))
    ));
}

#[test]
fn max_particles_defaults_and_clamps() {
    let bytes = particle_fixture(4);
    let file = parse_pcf(&bytes).expect("fixture parses");
    assert_eq!(file.systems[0].max_particles(), 64);
    assert_eq!(file.systems[1].max_particles(), 1000);
    assert_eq!(file.systems[1].material(), None);
}

#[test]
fn later_attributes_never_shadow_earlier_ones() {
    let mut attributes = gmpublished_backend::pcf::PcfAttributes::new();
    attributes.push("Radius".to_owned(), gmpublished_backend::pcf::PcfValue::Int(1));
    attributes.push("radius".to_owned(), gmpublished_backend::pcf::PcfValue::Int(2));
    assert_eq!(attributes.get_int("RADIUS"), Some(1));
    assert_eq!(attributes.len(), 2);
    assert!(!attributes.is_empty());
    assert_eq!(attributes.get_bool("radius"), Some(true));
}
