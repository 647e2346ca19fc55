use relstore::circuit::{FkJoinIndexed, Integrate, IntegratePairs, ZDelta};
use relstore::row::{RowData, Value};

fn album_row(name: &str) -> RowData {
    RowData { attrs: vec![Value::Text(name.to_string())], fks: vec![] }
}

fn track_row(name: &str, album: u32) -> RowData {
    RowData { attrs: vec![Value::Text(name.to_string())], fks: vec![Some(album)] }
}

fn name_of(d: &RowData) -> String {
    match &d.attrs[0] {
        Value::Text(s) => s.clone(),
        Value::Int(i) => format!("{}", i),
    }
}

#[test]
fn test_join() {
    let mut album_counter: u32 = 0;
    let mut track_counter: u32 = 0;

    let mut albums: Vec<ZDelta> = vec![];
    let mut tracks: Vec<ZDelta> = vec![];

    let mut make_album = |name: &str| {
        let id = album_counter;
        albums.push(ZDelta { key: id, value: album_row(name), multiplicity: 1 });
        album_counter += 1;
        id
    };

    let shinkuro = make_album("シンクロ0");
    let zetsurin = make_album("絶倫パトロール");

    let mut make_track = |name: &str, album: u32| {
        let id = track_counter;
        tracks.push(ZDelta { key: id, value: track_row(name, album), multiplicity: 1 });
        track_counter += 1;
        id
    };

    let _shinkuro_dendera = make_track("デンデラパーティーナイト", shinkuro);
    let _shinkuro_tsukuyomi = make_track("月詠-彦星-", shinkuro);
    let _shinkuro_getsumen = make_track("月面コールスター", shinkuro);
    let _shinkuro_futari = make_track("ふたりあわせ", shinkuro);
    let _shinkuro_mayonaka = make_track("マヨナカトリップ", shinkuro);
    let _shinkuro_observers = make_track("オブザーバーズセオリー", shinkuro);
    let _shinkuro_instant = make_track("インスタントブルー", shinkuro);
    let _shinkuro_ichido = make_track("一度は詣れよ善光寺", shinkuro);
    let _shinkuro_sf = make_track("SF", shinkuro);
    let _shinkuro_roman = make_track("ロマンモンスター", shinkuro);
    let _shinkuro_jikan = make_track("時間よ止まれ", shinkuro);

    let _zetsurin_romantic = make_track("(新)ロマンティック", zetsurin);
    let _zetsurin_superstar = make_track("スーパースター", zetsurin);
    let _zetsurin_kagura = make_track("神楽0", zetsurin);
    let _zetsurin_zetsurin = make_track("絶倫パトロール", zetsurin);
    let _zetsurin_yokumo = make_track("良くも悪くも。", zetsurin);
    let _zetsurin_aino = make_track("愛の消費期限", zetsurin);
    let _zetsurin_kagura_off = make_track("神楽0(off vocal)", zetsurin);
    let _zetsurin_zetsurin_off = make_track("絶倫パトロール(off vocal)", zetsurin);

    // integrate
    let mut album_table = Integrate::new();
    let mut track_table = Integrate::new();

    let join = FkJoinIndexed::new(0);

    let mut join_integrate = IntegratePairs::new();

    for album in albums {
        album_table.eval(album);
    }
    for track in tracks {
        track_table.eval(track.clone());
        if let Some(v) = join.eval(&album_table, track) {
            join_integrate.eval(v);
        }
    }

    for (_key, zv) in join_integrate.entries() {
        println!("{}: {} ({:+})", name_of(&zv.left), name_of(&zv.right), zv.multiplicity);
    }
}
