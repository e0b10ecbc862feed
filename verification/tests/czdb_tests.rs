use aes::cipher::block_padding::Pkcs7;
use aes::cipher::{BlockEncryptMut, KeyInit};
use aes::Aes128;
use base64::Engine;
use czdb::crypt::{decode_aes_key, GeoDataDecryptor};
use czdb::memory::CzdbMemory;
use czdb::meta::{parse_header_table, parse_super_part, read_hyper_header, DbMeta};
use czdb::record::decode_region_from_bytes;
use czdb::search::{search_in_index, search_in_payload};
use czdb::{CzError, DbType, Ip};
use rmpv::encode::write_value;
use rmpv::Value;

const KEY: &[u8; 16] = b"0123456789abcdef";
const CLIENT_ID: u32 = 42;
const DATE: u32 = 991231;
const TODAY: u32 = 251011;
const PADDING: u32 = 4;

fn key_b64() -> String {
    base64::engine::general_purpose::STANDARD.encode(KEY)
}

fn xor_with_key(data: &[u8]) -> Vec<u8> {
    data.iter()
        .enumerate()
        .map(|(i, &b)| b ^ KEY[i % KEY.len()])
        .collect()
}

fn encrypted_header_body(date: u32, padding: u32) -> Vec<u8> {
    let tag: u32 = (CLIENT_ID << 20) | date;
    let mut buf = [0u8; 16];
    buf[..4].copy_from_slice(&tag.to_le_bytes());
    buf[4..8].copy_from_slice(&padding.to_le_bytes());
    let cipher = Aes128::new(aes::cipher::Key::<Aes128>::from_slice(KEY));
    let ct = cipher
        .encrypt_padded_mut::<Pkcs7>(&mut buf, 8)
        .expect("encryption fits one block");
    ct.to_vec()
}

fn encode_record(geo_mix: u64, other: &str) -> Vec<u8> {
    let mut v = Vec::new();
    write_value(&mut v, &Value::Integer(geo_mix.into())).unwrap();
    write_value(&mut v, &Value::String(other.into())).unwrap();
    v
}

fn assemble_file(payload: Vec<u8>, date: u32) -> Vec<u8> {
    let enc = encrypted_header_body(date, PADDING);
    let mut file = Vec::new();
    file.extend_from_slice(&1u32.to_le_bytes());
    file.extend_from_slice(&CLIENT_ID.to_le_bytes());
    file.extend_from_slice(&(enc.len() as u32).to_le_bytes());
    file.extend_from_slice(&enc);
    file.extend_from_slice(&[0u8, 0u8, 0u8, 0u8]);
    file.extend_from_slice(&payload);
    file
}

fn padded16(prefix: [u8; 4]) -> [u8; 16] {
    let mut ip = [0u8; 16];
    ip[..4].copy_from_slice(&prefix);
    ip
}

/// Two IPv4 ranges, no dictionary: 1.1.1.0-1.1.1.255 -> "region1",
/// 2.2.2.0-2.2.2.255 -> "region2".
fn build_basic_file() -> Vec<u8> {
    let r1 = encode_record(0, "region1");
    let r2 = encode_record(0, "region2");
    let start_index: u32 = 17 + 40;
    let end_index: u32 = start_index + 13;
    let colsel_at: u32 = end_index + 13;
    let r1_ptr: u32 = colsel_at + 4;
    let r2_ptr: u32 = r1_ptr + r1.len() as u32;
    let payload_size: u32 = r2_ptr + r2.len() as u32;

    let mut p = Vec::new();
    p.push(0u8);
    p.extend_from_slice(&payload_size.to_le_bytes());
    p.extend_from_slice(&start_index.to_le_bytes());
    p.extend_from_slice(&40u32.to_le_bytes());
    p.extend_from_slice(&end_index.to_le_bytes());
    p.extend_from_slice(&padded16([1, 1, 1, 0]));
    p.extend_from_slice(&start_index.to_le_bytes());
    p.extend_from_slice(&padded16([2, 2, 2, 0]));
    p.extend_from_slice(&end_index.to_le_bytes());
    p.extend_from_slice(&[1, 1, 1, 0, 1, 1, 1, 255]);
    p.extend_from_slice(&r1_ptr.to_le_bytes());
    p.push(r1.len() as u8);
    p.extend_from_slice(&[2, 2, 2, 0, 2, 2, 2, 255]);
    p.extend_from_slice(&r2_ptr.to_le_bytes());
    p.push(r2.len() as u8);
    p.extend_from_slice(&0u32.to_le_bytes());
    p.extend_from_slice(&r1);
    p.extend_from_slice(&r2);
    assert_eq!(p.len() as u32, payload_size);
    assemble_file(p, DATE)
}

/// One IPv4 range with a dictionary of three columns and the mask
/// 0b0110: bits 1 and 2 select "CN" and "Beijing", bit 3 leaves
/// "Haidian" out; the record's own string is "ISP-X".
fn build_dict_file() -> Vec<u8> {
    let mut dict = Vec::new();
    write_value(
        &mut dict,
        &Value::Array(vec![
            Value::String("CN".into()),
            Value::String("Beijing".into()),
            Value::String("Haidian".into()),
        ]),
    )
    .unwrap();
    let geo_mix: u64 = (dict.len() as u64) << 24;
    let record = encode_record(geo_mix, "ISP-X");

    let start_index: u32 = 17 + 20;
    let end_index: u32 = start_index;
    let colsel_at: u32 = end_index + 13;
    let record_ptr: u32 = colsel_at + 8 + dict.len() as u32;
    let payload_size: u32 = record_ptr + record.len() as u32;

    let mut p = Vec::new();
    p.push(0u8);
    p.extend_from_slice(&payload_size.to_le_bytes());
    p.extend_from_slice(&start_index.to_le_bytes());
    p.extend_from_slice(&20u32.to_le_bytes());
    p.extend_from_slice(&end_index.to_le_bytes());
    p.extend_from_slice(&padded16([1, 1, 1, 0]));
    p.extend_from_slice(&start_index.to_le_bytes());
    p.extend_from_slice(&[1, 1, 1, 0, 1, 1, 1, 255]);
    p.extend_from_slice(&record_ptr.to_le_bytes());
    p.push(record.len() as u8);
    p.extend_from_slice(&0b0110u32.to_le_bytes());
    p.extend_from_slice(&(dict.len() as u32).to_le_bytes());
    p.extend_from_slice(&xor_with_key(&dict));
    p.extend_from_slice(&record);
    assert_eq!(p.len() as u32, payload_size);
    assemble_file(p, DATE)
}

fn open_memory(file: &[u8]) -> CzdbMemory {
    CzdbMemory::from_bytes_at(file.to_vec(), &key_b64(), TODAY).expect("open")
}

fn v4(a: u8, b: u8, c: u8, d: u8) -> Ip {
    Ip::V4([a, b, c, d])
}

/// The disk backend's staged pipeline, replayed over a byte buffer:
/// every read a slice, every computation the library's.
fn disk_style_search(file: &[u8], ip: Ip) -> Option<String> {
    let kb = decode_aes_key(&key_b64()).unwrap();
    let h = read_hyper_header(file, &kb, TODAY).unwrap();
    let off = (12 + h.padding_size + h.encrypted_block_size) as usize;
    let payload = &file[off..];
    let sp = parse_super_part(&payload[..17], file.len() as u64, h.padding_size, h.encrypted_block_size).unwrap();
    let table_len = sp.total_header_block_size as usize;
    let (header_sip, header_ptr) =
        parse_header_table(&payload[17..17 + table_len], 0, sp.total_header_block_size / 20, sp.db_type).unwrap();
    let blen = sp.db_type.index_block_len();
    let colsel_at = sp.end_index as usize + blen;
    let column_selection =
        u32::from_le_bytes(payload[colsel_at..colsel_at + 4].try_into().unwrap()) as u64;
    let geo_map_data = if column_selection != 0 {
        let gsize =
            u32::from_le_bytes(payload[colsel_at + 4..colsel_at + 8].try_into().unwrap()) as usize;
        let cipher = &payload[colsel_at + 8..colsel_at + 8 + gsize];
        Some(czdb::meta::decrypt_geo_data(&kb, cipher).unwrap())
    } else {
        None
    };
    let meta = DbMeta {
        db_type: sp.db_type,
        header_sip,
        header_ptr,
        column_selection,
        geo_map_data,
        start_index: sp.start_index,
        end_index: sp.end_index,
    };
    assert!(meta.is_well_formed());
    let ip_bytes = ip.padded();
    let (sptr, eptr) = meta.search_in_header(&ip_bytes)?;
    if eptr < sptr {
        return None;
    }
    let window = &payload[sptr as usize..eptr as usize + blen];
    let (rptr, rlen) = search_in_index(window, &ip_bytes, meta.db_type)?;
    if rptr == 0 || rlen == 0 {
        return None;
    }
    let region_bytes = &payload[rptr as usize..rptr as usize + rlen as usize];
    decode_region_from_bytes(region_bytes, &meta)
}

fn payload_of(file: &[u8]) -> &[u8] {
    let kb = decode_aes_key(&key_b64()).unwrap();
    let h = read_hyper_header(file, &kb, TODAY).unwrap();
    &file[(12 + h.padding_size + h.encrypted_block_size) as usize..]
}

fn payload_meta(file: &[u8]) -> DbMeta {
    let kb = decode_aes_key(&key_b64()).unwrap();
    let h = read_hyper_header(file, &kb, TODAY).unwrap();
    let payload = payload_of(file);
    czdb::meta::parse_meta_from_bytes(
        payload,
        file.len() as u64,
        h.padding_size,
        h.encrypted_block_size,
        &kb,
    )
    .unwrap()
}

#[test]
fn search_handles_start_boundary_correctly() {
    let db = open_memory(&build_basic_file());
    assert_eq!(db.search(v4(1, 1, 1, 0)), Some("region1".to_string()));
}

#[test]
fn search_returns_expected_results() {
    let db = open_memory(&build_basic_file());
    assert_eq!(db.search(v4(2, 2, 2, 2)), Some("region2".to_string()));
    assert!(db.search(v4(3, 3, 3, 3)).is_none());
}

#[test]
fn search_covers_both_ranges() {
    let db = open_memory(&build_basic_file());
    assert_eq!(db.search(v4(1, 1, 1, 77)), Some("region1".to_string()));
    assert_eq!(db.search(v4(2, 2, 2, 200)), Some("region2".to_string()));
}

#[test]
fn search_end_boundary() {
    let db = open_memory(&build_basic_file());
    assert_eq!(db.search(v4(1, 1, 1, 255)), Some("region1".to_string()));
    assert_eq!(db.search(v4(2, 2, 2, 255)), Some("region2".to_string()));
    assert_eq!(db.search(v4(2, 2, 2, 0)), Some("region2".to_string()));
}

#[test]
fn search_below_first_range_is_none() {
    let db = open_memory(&build_basic_file());
    assert!(db.search(v4(0, 0, 0, 1)).is_none());
}

#[test]
fn search_above_last_range_is_none() {
    let db = open_memory(&build_basic_file());
    assert!(db.search(v4(255, 255, 255, 255)).is_none());
}

#[test]
fn search_in_gap_is_none() {
    let db = open_memory(&build_basic_file());
    assert!(db.search(v4(1, 200, 0, 1)).is_none());
}

#[test]
fn family_mismatch_is_none() {
    let db = open_memory(&build_basic_file());
    let mut v6 = [0u8; 16];
    v6[15] = 1;
    assert!(db.search(Ip::V6(v6)).is_none());
    assert_eq!(db.db_type(), DbType::Ipv4);
}

#[test]
fn search_ref_agrees_with_search() {
    let db = open_memory(&build_basic_file());
    for ip in [v4(1, 1, 1, 0), v4(2, 2, 2, 2), v4(3, 3, 3, 3)] {
        assert_eq!(db.search_ref(ip).map(str::to_string), db.search(ip));
    }
}

#[test]
fn search_many_agrees_with_search() {
    let db = open_memory(&build_basic_file());
    for ip in [v4(1, 1, 1, 0), v4(2, 2, 2, 2), v4(9, 9, 9, 9)] {
        assert_eq!(db.search_many(&[ip])[0], db.search(ip));
        assert_eq!(
            db.search_many_scan(&[ip])[0].map(str::to_string),
            db.search(ip)
        );
    }
}

#[test]
fn search_many_scan_matches_pointwise() {
    let db = open_memory(&build_basic_file());
    let mut v6 = [0u8; 16];
    v6[15] = 1;
    let ips = [
        v4(2, 2, 2, 2),
        v4(0, 0, 0, 1),
        v4(1, 1, 1, 255),
        Ip::V6(v6),
        v4(1, 1, 1, 0),
        v4(255, 0, 0, 1),
        v4(2, 2, 2, 2),
    ];
    let scanned = db.search_many_scan(&ips);
    let refs = db.search_many_ref(&ips);
    assert_eq!(scanned.len(), ips.len());
    for i in 0..ips.len() {
        assert_eq!(scanned[i], refs[i]);
    }
}

#[test]
fn three_backends_agree() {
    let file = build_basic_file();
    let db = open_memory(&file);
    let payload = payload_of(&file);
    let meta = payload_meta(&file);
    for ip in [
        v4(1, 1, 1, 0),
        v4(1, 1, 1, 255),
        v4(2, 2, 2, 2),
        v4(3, 3, 3, 3),
        v4(0, 0, 0, 1),
    ] {
        let memory = db.search(ip);
        let mapped = search_in_payload(payload, &meta, &ip);
        let disk = disk_style_search(&file, ip);
        assert_eq!(memory, mapped);
        assert_eq!(memory, disk);
    }
}

#[test]
fn dictionary_columns_are_joined() {
    let file = build_dict_file();
    let db = open_memory(&file);
    assert_eq!(db.search(v4(1, 1, 1, 7)), Some("CN\tBeijing\tISP-X".to_string()));
    let payload = payload_of(&file);
    let meta = payload_meta(&file);
    assert_eq!(
        search_in_payload(payload, &meta, &v4(1, 1, 1, 7)),
        Some("CN\tBeijing\tISP-X".to_string())
    );
}

#[test]
fn size_mismatch_fails_open_as_corrupted() {
    let mut file = build_basic_file();
    let off = (12 + 16 + PADDING) as usize + 1;
    let declared = u32::from_le_bytes(file[off..off + 4].try_into().unwrap());
    file[off..off + 4].copy_from_slice(&(declared + 1).to_le_bytes());
    assert_eq!(
        CzdbMemory::from_bytes_at(file, &key_b64(), TODAY).err(),
        Some(CzError::DatabaseFileCorrupted)
    );
}

#[test]
fn wrong_length_keys_are_refused() {
    let k15 = base64::engine::general_purpose::STANDARD.encode([7u8; 15]);
    let k17 = base64::engine::general_purpose::STANDARD.encode([7u8; 17]);
    assert_eq!(decode_aes_key(&k15).err(), Some(CzError::InvalidAesKeyLength(15)));
    assert_eq!(decode_aes_key(&k17).err(), Some(CzError::InvalidAesKeyLength(17)));
    assert_eq!(
        CzdbMemory::from_bytes_at(build_basic_file(), &k15, TODAY).err(),
        Some(CzError::InvalidAesKeyLength(15))
    );
}

#[test]
fn undecodable_key_is_refused() {
    assert_eq!(decode_aes_key("!!!").err(), Some(CzError::KeyDecodingError));
}

#[test]
fn expired_database_is_refused() {
    let file = assemble_file(Vec::new(), 200101);
    assert_eq!(
        CzdbMemory::from_bytes_at(file, &key_b64(), 251011).err(),
        Some(CzError::DatabaseExpired)
    );
}

#[test]
fn wrong_client_id_is_refused() {
    let mut file = build_basic_file();
    file[4..8].copy_from_slice(&7u32.to_le_bytes());
    assert_eq!(
        CzdbMemory::from_bytes_at(file, &key_b64(), TODAY).err(),
        Some(CzError::InvalidClientId)
    );
}

#[test]
fn malformed_padding_fails_decryption() {
    let mut file = build_basic_file();
    file[12] ^= 0xff;
    assert_eq!(
        CzdbMemory::from_bytes_at(file, &key_b64(), TODAY).err(),
        Some(CzError::DecryptionError)
    );
}

#[test]
fn short_file_fails_with_read_error() {
    let file = build_basic_file();
    assert_eq!(
        CzdbMemory::from_bytes_at(file[..10].to_vec(), &key_b64(), TODAY).err(),
        Some(CzError::DatabaseFileReadError)
    );
}

#[test]
fn zero_pointer_terminates_sparse_header() {
    let mut table = Vec::new();
    table.extend_from_slice(&padded16([1, 0, 0, 0]));
    table.extend_from_slice(&57u32.to_le_bytes());
    table.extend_from_slice(&padded16([2, 0, 0, 0]));
    table.extend_from_slice(&0u32.to_le_bytes());
    table.extend_from_slice(&padded16([3, 0, 0, 0]));
    table.extend_from_slice(&70u32.to_le_bytes());
    let (sips, ptrs) = parse_header_table(&table, 0, 3, DbType::Ipv4).unwrap();
    assert_eq!(ptrs, vec![57]);
    assert_eq!(sips.len(), 1);
    assert_eq!(&sips[0][..4], &[1, 0, 0, 0]);
}

#[test]
fn unsorted_sparse_header_is_refused() {
    let mut table = Vec::new();
    table.extend_from_slice(&padded16([2, 0, 0, 0]));
    table.extend_from_slice(&57u32.to_le_bytes());
    table.extend_from_slice(&padded16([1, 0, 0, 0]));
    table.extend_from_slice(&70u32.to_le_bytes());
    assert_eq!(
        parse_header_table(&table, 0, 2, DbType::Ipv4).err(),
        Some(CzError::DatabaseFileCorrupted)
    );
}

#[test]
fn sparse_window_brackets_queries() {
    let file = build_basic_file();
    let meta = payload_meta(&file);
    let first: u32 = 57;
    let second: u32 = 70;
    assert_eq!(meta.search_in_header(&padded16([1, 1, 1, 0])), Some((first, first)));
    assert_eq!(meta.search_in_header(&padded16([1, 1, 1, 9])), Some((first, second)));
    assert_eq!(meta.search_in_header(&padded16([9, 9, 9, 9])), Some((second, second + 13)));
    assert_eq!(meta.search_in_header(&padded16([0, 0, 0, 1])), None);
}

#[test]
fn xor_stream_round_trips() {
    let d = GeoDataDecryptor::new(KEY.to_vec()).unwrap();
    let plain = b"geo data \x00\x01\x02 and more geo data";
    let once = d.decrypt(plain);
    assert_ne!(once, plain.to_vec());
    assert_eq!(once[0], plain[0] ^ KEY[0]);
    assert_eq!(once[17], plain[17] ^ KEY[1]);
    assert_eq!(d.decrypt(&once), plain.to_vec());
    assert_eq!(
        GeoDataDecryptor::new(Vec::new()).err(),
        Some(CzError::InvalidAesKeyLength(0))
    );
}

#[test]
fn aes_key_decodes_to_its_bytes() {
    assert_eq!(decode_aes_key(&key_b64()).unwrap(), KEY.to_vec());
}

#[test]
fn compare_bytes_orders_prefixes() {
    assert_eq!(compare_prefixes(&[1, 2, 3], &[1, 2, 4], 3), core::cmp::Ordering::Less);
    assert_eq!(compare_prefixes(&[1, 2, 5], &[1, 2, 4], 3), core::cmp::Ordering::Greater);
    assert_eq!(compare_prefixes(&[1, 2, 5], &[1, 2, 4], 2), core::cmp::Ordering::Equal);
}

fn compare_prefixes(a: &[u8], b: &[u8], n: usize) -> core::cmp::Ordering {
    czdb::order::compare_bytes(a, b, n)
}

#[test]
fn multibyte_region_text_survives_decoding() {
    let record = encode_record(0, "北京市");
    let meta = payload_meta(&build_basic_file());
    assert_eq!(decode_region_from_bytes(&record, &meta), Some("北京市".to_string()));
}

#[test]
fn invalid_utf8_in_record_reads_as_null() {
    let mut record = Vec::new();
    write_value(&mut record, &Value::Integer(0.into())).unwrap();
    record.push(0xa1);
    record.push(0xff);
    let meta = payload_meta(&build_basic_file());
    assert_eq!(decode_region_from_bytes(&record, &meta), Some("null".to_string()));
}

#[test]
fn wide_integer_forms_decode() {
    let mut record = Vec::new();
    record.push(0xcd);
    record.extend_from_slice(&0u16.to_be_bytes());
    write_value(&mut record, &Value::String("wide".into())).unwrap();
    let meta = payload_meta(&build_basic_file());
    assert_eq!(decode_region_from_bytes(&record, &meta), Some("wide".to_string()));
}

#[test]
fn clock_backed_open_succeeds_until_expiry() {
    let db = CzdbMemory::from_bytes(build_basic_file(), &key_b64()).expect("open with clock");
    assert_eq!(db.search(v4(1, 1, 1, 1)), Some("region1".to_string()));
}

#[test]
fn range_round_trip_start_mid_end() {
    let db = open_memory(&build_basic_file());
    let at_start = db.search(v4(1, 1, 1, 0));
    let at_mid = db.search(v4(1, 1, 1, 128));
    let at_end = db.search(v4(1, 1, 1, 255));
    assert_eq!(at_start, Some("region1".to_string()));
    assert_eq!(at_start, at_mid);
    assert_eq!(at_mid, at_end);
}

/// One IPv6 range 2001:db8::10 - 2001:db8::20 -> "region6", in
/// 37-byte index blocks.
fn build_v6_file() -> Vec<u8> {
    let r = encode_record(0, "region6");
    let mut lo = [0u8; 16];
    lo[0] = 0x20;
    lo[1] = 0x01;
    lo[2] = 0x0d;
    lo[3] = 0xb8;
    lo[15] = 0x10;
    let mut hi = lo;
    hi[15] = 0x20;

    let start_index: u32 = 17 + 20;
    let end_index: u32 = start_index;
    let colsel_at: u32 = end_index + 37;
    let r_ptr: u32 = colsel_at + 4;
    // leave a spare index block of bytes after the record: the sparse
    // fallback window reads one block past the last entry
    let payload_size: u32 = r_ptr + r.len() as u32 + 64;

    let mut p = Vec::new();
    p.push(1u8);
    p.extend_from_slice(&payload_size.to_le_bytes());
    p.extend_from_slice(&start_index.to_le_bytes());
    p.extend_from_slice(&20u32.to_le_bytes());
    p.extend_from_slice(&end_index.to_le_bytes());
    p.extend_from_slice(&lo);
    p.extend_from_slice(&start_index.to_le_bytes());
    p.extend_from_slice(&lo);
    p.extend_from_slice(&hi);
    p.extend_from_slice(&r_ptr.to_le_bytes());
    p.push(r.len() as u8);
    p.extend_from_slice(&0u32.to_le_bytes());
    p.extend_from_slice(&r);
    p.extend_from_slice(&[0u8; 64]);
    assert_eq!(p.len() as u32, payload_size);
    assemble_file(p, DATE)
}

#[test]
fn v6_database_answers_v6_queries() {
    let file = build_v6_file();
    let db = open_memory(&file);
    assert_eq!(db.db_type(), DbType::Ipv6);
    let mut q = [0u8; 16];
    q[0] = 0x20;
    q[1] = 0x01;
    q[2] = 0x0d;
    q[3] = 0xb8;
    q[15] = 0x15;
    assert_eq!(db.search(Ip::V6(q)), Some("region6".to_string()));
    q[15] = 0x10;
    assert_eq!(db.search(Ip::V6(q)), Some("region6".to_string()));
    q[15] = 0x20;
    assert_eq!(db.search(Ip::V6(q)), Some("region6".to_string()));
    q[15] = 0x21;
    assert!(db.search(Ip::V6(q)).is_none());
    assert!(db.search(v4(1, 1, 1, 1)).is_none());

    let payload = payload_of(&file);
    let meta = payload_meta(&file);
    q[15] = 0x15;
    assert_eq!(
        search_in_payload(payload, &meta, &Ip::V6(q)),
        Some("region6".to_string())
    );
    assert_eq!(disk_style_search(&file, Ip::V6(q)), Some("region6".to_string()));
}
