use blake2::Blake2b512;
use blake2::Digest;
use std::rc::Rc;
use vm::deserialize::deserialize;
use vm::deserialize::DeserializationError;
use vm::digest::storage_key;
use vm::noun::Noun;
use vm::serialize::serialize;
use vm::serialize::SerializationError;

fn atom(x: u8) -> Noun {
    Noun::from_u8(x)
}

fn cell(left: Noun, right: Noun) -> Noun {
    Noun::new_cell(left, right)
}

fn samples() -> Vec<Noun> {
    vec![
        atom(0),
        atom(1),
        atom(255),
        Noun::from_vec(vec![0, 1]),
        Noun::from_vec(vec![1, 2, 3, 4, 5, 6, 7, 8, 9]),
        Noun::from_vec(vec![7u8; 300]),
        Noun::from_vec(vec![7u8; 65535]),
        cell(atom(1), atom(2)),
        cell(cell(atom(1), atom(2)), atom(3)),
        cell(atom(1), cell(atom(2), cell(atom(3), atom(0)))),
        cell(Noun::from_vec(vec![9u8; 64]), cell(atom(0), atom(0))),
    ]
}

#[test]
fn what_is_serialized_comes_back() {
    for noun in samples() {
        let bytes = serialize(&noun, 1000000).unwrap();
        assert_eq!(deserialize(&bytes[..]), Ok(noun));
    }
}

#[test]
fn serializing_twice_gives_the_same_bytes() {
    for noun in samples() {
        assert_eq!(serialize(&noun, 1000000), serialize(&noun.clone(), 1000000));
    }
    let padded = Noun::Atom(Rc::new(vec![5, 0, 0]));
    assert_eq!(serialize(&padded, 100), serialize(&atom(5), 100));
    let empty = Noun::Atom(Rc::new(vec![]));
    assert_eq!(serialize(&empty, 100), serialize(&atom(0), 100));
}

#[test]
fn the_encoding_is_tag_length_bytes() {
    assert_eq!(serialize(&atom(0), 100), Ok(vec![0, 0, 0]));
    assert_eq!(serialize(&atom(5), 100), Ok(vec![0, 1, 0, 5]));
    assert_eq!(serialize(&Noun::from_vec(vec![0, 1]), 100), Ok(vec![0, 2, 0, 0, 1]));
    assert_eq!(
        serialize(&cell(atom(1), atom(2)), 100),
        Ok(vec![1, 0, 1, 0, 1, 0, 1, 0, 2])
    );
    assert_eq!(
        serialize(&cell(cell(atom(0), atom(9)), atom(2)), 100),
        Ok(vec![1, 1, 0, 0, 0, 0, 1, 0, 9, 0, 1, 0, 2])
    );
    let long = serialize(&Noun::from_vec(vec![3u8; 258]), 1000).unwrap();
    assert_eq!(long.len(), 261);
    assert_eq!(&long[..3], &[0, 2, 1]);
}

#[test]
fn the_encoding_must_fit_the_maximum() {
    assert_eq!(serialize(&atom(5), 4), Ok(vec![0, 1, 0, 5]));
    assert_eq!(serialize(&atom(5), 3), Err(SerializationError::MaximumLengthExceeded));
    assert_eq!(serialize(&atom(0), 2), Err(SerializationError::MaximumLengthExceeded));
    assert_eq!(serialize(&cell(atom(1), atom(2)), 9).map(|b| b.len()), Ok(9));
    assert_eq!(
        serialize(&cell(atom(1), atom(2)), 8),
        Err(SerializationError::MaximumLengthExceeded)
    );
    assert_eq!(
        serialize(&cell(atom(1), atom(2)), 0),
        Err(SerializationError::MaximumLengthExceeded)
    );
    let mut large = atom(1);
    for _ in 0..20 {
        large = cell(large.clone(), large);
    }
    assert_eq!(serialize(&large, 1000000), Err(SerializationError::MaximumLengthExceeded));
}

#[test]
fn an_atom_must_fit_the_length_field() {
    assert!(serialize(&Noun::from_vec(vec![1u8; 65535]), 1000000).is_ok());
    assert_eq!(
        serialize(&Noun::from_vec(vec![1u8; 65536]), 1000000),
        Err(SerializationError::OverlongAtom)
    );
    assert_eq!(
        serialize(&cell(atom(1), Noun::from_vec(vec![1u8; 65536])), 1000000),
        Err(SerializationError::OverlongAtom)
    );
    // What comes first in the noun is met first.
    assert_eq!(
        serialize(&cell(atom(1), Noun::from_vec(vec![1u8; 65536])), 4),
        Err(SerializationError::MaximumLengthExceeded)
    );
    assert_eq!(
        serialize(&cell(Noun::from_vec(vec![1u8; 65536]), atom(1)), 4),
        Err(SerializationError::OverlongAtom)
    );
}

#[test]
fn only_encodings_are_read() {
    assert_eq!(deserialize(&[0, 0, 0]), Ok(atom(0)));
    assert_eq!(deserialize(&[0, 1, 0, 5]), Ok(atom(5)));
    assert_eq!(deserialize(&[1, 0, 1, 0, 1, 0, 1, 0, 2]), Ok(cell(atom(1), atom(2))));
    assert_eq!(deserialize(&[]), Err(DeserializationError::UnexpectedEnd));
    assert_eq!(deserialize(&[0]), Err(DeserializationError::UnexpectedEnd));
    assert_eq!(deserialize(&[0, 1]), Err(DeserializationError::UnexpectedEnd));
    assert_eq!(deserialize(&[0, 2, 0, 1]), Err(DeserializationError::UnexpectedEnd));
    assert_eq!(deserialize(&[1]), Err(DeserializationError::UnexpectedEnd));
    assert_eq!(deserialize(&[1, 0, 0, 0]), Err(DeserializationError::UnexpectedEnd));
    assert_eq!(deserialize(&[2]), Err(DeserializationError::BadTag));
    assert_eq!(deserialize(&[1, 0, 0, 0, 7]), Err(DeserializationError::BadTag));
    assert_eq!(deserialize(&[0, 1, 0, 0]), Err(DeserializationError::NonCanonicalAtom));
    assert_eq!(deserialize(&[0, 2, 0, 5, 0]), Err(DeserializationError::NonCanonicalAtom));
    assert_eq!(deserialize(&[0, 0, 0, 0]), Err(DeserializationError::TrailingBytes));
    assert_eq!(
        deserialize(&[1, 0, 0, 0, 0, 0, 0, 9]),
        Err(DeserializationError::TrailingBytes)
    );
}

#[test]
fn a_storage_key_is_the_tag_and_the_digest() {
    let digest = Blake2b512::digest(b"abc").to_vec();
    let key = storage_key(&digest[..]);
    assert_eq!(key.len(), 65);
    assert_eq!(key[0], 1);
    assert_eq!(&key[1..], &digest[..]);
    assert_eq!(storage_key(&[]), vec![1]);
    assert_eq!(storage_key(&[4, 5]), vec![1, 4, 5]);
}
