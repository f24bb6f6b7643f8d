use automata::material::{
    builtin_materials, Density, Material, Phase, EMPTY, SAND, STONE, WATER,
};
use serde_json::Value;

#[test]
fn constants_match_table_order() {
    let materials = builtin_materials();
    assert_eq!(materials[EMPTY as usize].name, "Empty");
    assert_eq!(materials[SAND as usize].name, "Sand");
    assert_eq!(materials[WATER as usize].name, "Water");
    assert_eq!(materials[STONE as usize].name, "Stone");
}

fn to_json(materials: &[Material]) -> String {
    let records: Vec<Value> = materials
        .iter()
        .map(|material| {
            let mut fields = serde_json::Map::new();
            fields.insert("name".to_string(), Value::from(material.name.clone()));
            fields.insert("phase".to_string(), Value::from(format!("{:?}", material.phase)));
            let density = f32::from_bits(material.density.to_bits());
            fields.insert("density".to_string(), Value::from(density));
            fields.insert("color".to_string(), Value::from(material.color));
            Value::Object(fields)
        })
        .collect();
    serde_json::to_string(&Value::Array(records)).unwrap()
}

fn from_json(json: &str) -> Vec<Material> {
    let phases = [Phase::Empty, Phase::Solid, Phase::Powder, Phase::Liquid, Phase::Gas];
    let value: Value = serde_json::from_str(json).unwrap();
    let records = value.as_array().unwrap();
    records
        .iter()
        .map(|record| {
            let mut material = Material {
                name: record["name"].as_str().unwrap().to_string(),
                phase: Phase::Empty,
                density: Density::from_bits((record["density"].as_f64().unwrap() as f32).to_bits()),
                color: record["color"].as_u64().unwrap() as u32,
            };
            for phase in phases {
                if record["phase"].as_str() == Some(format!("{phase:?}").as_str()) {
                    material.phase = phase;
                    return material;
                }
            }
            panic!("no such phase: {}", record["phase"]);
        })
        .collect()
}

#[test]
fn material_round_trips_through_json() {
    let materials = builtin_materials();
    let json = to_json(&materials);
    let back: Vec<Material> = from_json(&json);
    assert_eq!(back.len(), materials.len());
    assert_eq!(back[SAND as usize].phase, Phase::Powder);
    assert_eq!(back[SAND as usize].color, materials[SAND as usize].color);
    assert_eq!(back[SAND as usize].density, materials[SAND as usize].density);
}

#[test]
fn builtin_palette_has_its_properties() {
    let listed: Vec<(Phase, f32, u32, &str)> = builtin_materials()
        .iter()
        .map(|m| (m.phase, f32::from_bits(m.density.to_bits()), m.color, m.phase_label()))
        .collect();
    assert_eq!(
        listed,
        vec![
            (Phase::Empty, 0.0, 0x000000, "empty"),
            (Phase::Powder, 1.5, 0xd8b45a, "powder"),
            (Phase::Liquid, 1.0, 0x4a90d9, "liquid"),
            (Phase::Solid, 3.0, 0x8b8b93, "solid"),
        ]
    );
    let mut gas = builtin_materials()[WATER as usize].clone();
    gas.phase = Phase::Gas;
    assert_eq!(gas.phase_label(), "gas");
}

#[test]
fn densities_compare_as_numbers() {
    let numbers = [
        0.0,
        -0.0,
        1.0,
        1.5,
        -1.5,
        3.0,
        f32::MIN_POSITIVE,
        -f32::MIN_POSITIVE,
        f32::from_bits(1),
        f32::from_bits(0x007f_ffff),
        f32::MAX,
        f32::MIN,
        f32::INFINITY,
        f32::NEG_INFINITY,
        f32::NAN,
        -f32::NAN,
        0.1,
        0.3,
    ];
    for a in numbers {
        for b in numbers {
            let above = Density::from_bits(a.to_bits()).is_above(Density::from_bits(b.to_bits()));
            assert_eq!(above, a > b, "{a} above {b}");
        }
    }
}

#[test]
fn densities_compare_as_numbers_across_bit_patterns() {
    let mut bits: u32 = 1;
    let mut last: u32 = 0;
    for _ in 0..100_000 {
        bits = bits.wrapping_mul(1_664_525).wrapping_add(1_013_904_223);
        let (a, b) = (f32::from_bits(bits), f32::from_bits(last));
        assert_eq!(Density::from_bits(bits).is_above(Density::from_bits(last)), a > b);
        last = bits;
    }
}
