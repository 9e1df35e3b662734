use evo::codec::CodecError;
use evo::gene::{Gene, Genome};
use evo::neural::{Connection, ConnectionPacked, NeuralNet};

#[test]
fn test_hex_conversion() {
    let connection = Connection { from: (1, 2), to: (3, 4), weight_milli: 4320 };

    let packed: ConnectionPacked = connection.to_packed().unwrap();
    let hex = packed.to_hex();
    let repacked = ConnectionPacked::from_hex(&hex).unwrap();
    let unpacked = Connection::from(repacked);
    assert!(connection.from == unpacked.from);
    assert!(connection.to == unpacked.to);
    assert!(connection.weight_milli == unpacked.weight_milli);
}

#[test]
fn roundtrip_negative_and_extreme_weights() {
    let weights: Vec<i16> = vec![0, 1, -1, -3110, i16::MIN, i16::MAX];
    for w in weights {
        let c = Connection { from: (0, 15), to: (15, 0), weight_milli: w };
        let packed = c.to_packed().unwrap();
        let hex = packed.to_hex();
        let repacked = ConnectionPacked::from_hex(&hex).unwrap();
        let unpacked = Connection::from(repacked);
        assert_eq!(c, unpacked);
    }
}

#[test]
fn to_hex_exact_text() {
    let packed = ConnectionPacked { from: 0x12, to: 0x34, weight: 4320 };
    assert_eq!(packed.to_hex(), "1234e010");

    let negative = ConnectionPacked { from: 0x01, to: 0x22, weight: -3110 };
    assert_eq!(negative.to_hex(), "0122daf3");
}

#[test]
fn from_hex_exact_fields() {
    let packed = ConnectionPacked::from_hex("1234e010").unwrap();
    assert_eq!(packed.from, 0x12);
    assert_eq!(packed.to, 0x34);
    assert_eq!(packed.weight, 4320);
    assert_eq!(packed.get_from(), (1, 2));
    assert_eq!(packed.get_to(), (3, 4));

    let upper = ConnectionPacked::from_hex("1234E010").unwrap();
    assert_eq!(upper.weight, 4320);
}

#[test]
fn from_hex_error_cases() {
    assert_eq!(ConnectionPacked::from_hex("123").unwrap_err(), CodecError::OddLength);
    assert_eq!(
        ConnectionPacked::from_hex("12g4e010").unwrap_err(),
        CodecError::InvalidHexCharacter { c: 'g', index: 2 }
    );
    assert_eq!(ConnectionPacked::from_hex("12345678ab").unwrap_err(), CodecError::WrongLength);
    assert_eq!(ConnectionPacked::from_hex("1234").unwrap_err(), CodecError::WrongLength);
}

#[test]
fn pack_rejects_wide_indices() {
    let c = Connection { from: (16, 0), to: (1, 0), weight_milli: 100 };
    assert_eq!(c.to_packed().unwrap_err(), CodecError::IndexOutOfRange);
    let c2 = Connection { from: (0, 0), to: (0, 16), weight_milli: 100 };
    assert_eq!(c2.to_packed().unwrap_err(), CodecError::IndexOutOfRange);
}

#[test]
fn gene_weight_and_color() {
    let gene = Gene::new(String::from("1234e010"));
    assert_eq!(gene.get_weight_milli().unwrap(), 4320);
    let color = gene.get_color().unwrap();
    assert_eq!(color.hue, 340);
    assert_eq!(color.saturation_milli, 4320);

    let negative = Gene::new(String::from("0122daf3"));
    assert_eq!(negative.get_weight_milli().unwrap(), -3110);
    let ncolor = negative.get_color().unwrap();
    assert_eq!(ncolor.hue, 110);
    assert_eq!(ncolor.saturation_milli, 3110);
}

#[test]
fn gene_error_cases() {
    let odd = Gene::new(String::from("123"));
    assert_eq!(odd.get_weight_milli().unwrap_err(), CodecError::OddLength);
    let bad = Gene::new(String::from("12x4e010"));
    assert_eq!(
        bad.get_weight_milli().unwrap_err(),
        CodecError::InvalidHexCharacter { c: 'x', index: 2 }
    );
    let short = Gene::new(String::from("1234"));
    assert_eq!(short.get_weight_milli().unwrap_err(), CodecError::WrongLength);
    assert_eq!(short.get_color().unwrap_err(), CodecError::WrongLength);
}

#[test]
fn convert_neural_net_to_genome() {
    let mut test_net = NeuralNet::new(vec![2, 3, 2]);
    assert!(test_net.add_connection((0, 0), (1, 1), 1200));
    assert!(test_net.add_connection((0, 1), (1, 1), 2100));
    assert!(test_net.add_connection((1, 1), (2, 0), 1000));
    let genome = Genome::from_net(&test_net);
    assert_eq!(genome.length(), 3);
    assert_eq!(genome.get_gene(0).text(), "0011b004");
    assert_eq!(genome.get_gene(1).text(), "01113408");
    assert_eq!(genome.get_gene(2).text(), "1120e803");
    // no direct input-to-output shortcut, so no trait genes
    assert_eq!(genome.trait_count(), 0);
    let colors = genome.trait_colors().unwrap();
    assert_eq!(colors.len(), 0);
}

#[test]
fn get_genome_color() {
    let mut test_net = NeuralNet::new(vec![2, 1, 3]);
    assert!(test_net.add_connection((0, 1), (2, 2), -3110));
    let genome = Genome::from_net(&test_net);
    assert_eq!(genome.length(), 1);
    assert_eq!(genome.trait_count(), 1);
    assert_eq!(genome.get_trait(0).text(), "0122daf3");
    let colors = genome.trait_colors().unwrap();
    assert_eq!(colors.len(), 1);
    assert_eq!(colors[0].hue, 110);
    assert_eq!(colors[0].saturation_milli, 3110);
}

#[test]
fn genome_new_keeps_genes() {
    let genes = vec![Gene::new(String::from("1234e010"))];
    let traits = vec![Gene::new(String::from("0122daf3"))];
    let genome = Genome::new(genes, traits);
    assert_eq!(genome.length(), 1);
    assert_eq!(genome.trait_count(), 1);
    assert_eq!(genome.get_gene(0).text(), "1234e010");
    assert_eq!(genome.get_trait(0).text(), "0122daf3");
}

#[test]
fn non_ascii_text_reports_character_positions() {
    // errors are stated over characters, not UTF-8 bytes
    let odd = Gene::new(String::from("é"));
    assert_eq!(odd.get_weight_milli().unwrap_err(), CodecError::OddLength);
    let bad = Gene::new(String::from("00é0"));
    assert_eq!(
        bad.get_weight_milli().unwrap_err(),
        CodecError::InvalidHexCharacter { c: 'é', index: 2 }
    );
    assert_eq!(
        ConnectionPacked::from_hex("€€").unwrap_err(),
        CodecError::InvalidHexCharacter { c: '€', index: 0 }
    );
}
