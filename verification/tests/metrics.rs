use sysmon::format::uptime;
use sysmon::metrics::cpu::{parse_stat, parse_stat_checked};
use sysmon::metrics::cpuinfo::parse_uptime;
use sysmon::metrics::disk::{
    is_whole_disk, parse_diskstats, parse_diskstats_checked, parse_mounts, transport,
    unescape_mount, usage_for, usage_from, MountUsage,
};
use sysmon::metrics::gpu::{
    device_id, device_name,
    csv_fields, nvidia_app_fields, nvidia_gpu_rows, parse_hex_id, pci_name, sclk_text, sysfs_kept,
};
use sysmon::metrics::history::{window_label, History, CAPACITY};
use sysmon::metrics::net::{parse_net_dev, parse_net_dev_checked};
use sysmon::metrics::procs::{
    parse_pid_stat, parse_pid_stat_checked, top_cpu_ticks, top_mem_pages, ProcStat, TOP,
};
use sysmon::order::rank_by_key;
use std::collections::HashMap;
use sysmon::metrics::temp::index_between;
use sysmon::metrics::{expensive_for, Expensive};
use sysmon::config::Section;
use sysmon::ui::detail::system_monitor_command;
use sysmon::ui::hex_rgb;

const STAT_A: &str = "cpu  50258281 1897484 28974876 395725085 1160894 2440253 2784590 0 0 0
cpu0 3631488 151633 2651303 32722735 193867 357924 592820 0 0 0
cpu1 4196869 154460 2281135 33136791 112593 165544 217775 0 0 0
cpu2 4221943 165213 2284805 33120102 100843 168482 188885 0 0 0
intr 1234567 0 0
ctxt 987654321
";

const STAT_B: &str = "cpu  50258306 1897484 28974876 395725160 1160894 2440253 2784590 0 0 0
cpu0 3631538 151633 2651303 32722785 193867 357924 592820 0 0 0
cpu1 4196869 154460 2281135 33136791 112593 165544 217775 0 0 0
cpu2 4222043 165213 2284805 33120102 100843 168482 188885 0 0 0
intr 1234999 0 0
ctxt 987654999
";

const NET_DEV_A: &str = "Inter-|   Receive                                                |  Transmit
 face |bytes    packets errs drop fifo frame compressed multicast|bytes    packets errs drop fifo colls carrier compressed
    lo:   70290     581    0    0    0     0          0         0    70290     581    0    0    0     0       0          0
enp1s0:       0       0    0    0    0     0          0         0        0       0    0    0    0     0       0          0
wlp2s0: 149127952  130129    0   39    0     0          0         0 20406898   67367    0    0    0     0       0          0
tailscale0:      86       1    0    0    0     0          0         0    62139     870    0    0    0     0       0          0
docker0:       0       0    0    0    0     0          0         0        0       0    0   37    0     0       0          0
";

const NET_DEV_B: &str = "Inter-|   Receive                                                |  Transmit
 face |bytes    packets errs drop fifo frame compressed multicast|bytes    packets errs drop fifo colls carrier compressed
    lo: 99999999     581    0    0    0     0          0         0 99999999     581    0    0    0     0       0          0
enp1s0:       0       0    0    0    0     0          0         0        0       0    0    0    0     0       0          0
wlp2s0: 151175952  131000    0   39    0     0          0         0 20407410   67400    0    0    0     0       0          0
tailscale0:      86       1    0    0    0     0          0         0    62139     870    0    0    0     0       0          0
docker0:       0       0    0    0    0     0          0         0        0       0    0   37    0     0       0          0
";

const DISKSTATS: &str = "   8       0 sda 107590 18970 12302680 188298 132810 32085 6085914 310964 0 78322 509941 2527 0 6509240 2338 7863 8339
   8       1 sda1 158 1200 11806 187 2 0 2 0 0 111 187 0 0 0 0 0 0
   8       3 sda3 107052 17760 12279928 187978 132786 32068 6085648 310937 0 85163 501255 2527 0 6509240 2338 0 0
 259       0 nvme0n1 5000 0 1000 0 6000 0 2000 0 0 0 0 0 0 0 0 0 0
 259       1 nvme0n1p1 4000 0 900 0 5000 0 1900 0 0 0 0 0 0 0 0 0 0
 253       0 dm-0 100 0 500 0 100 0 700 0 0 0 0 0 0 0 0 0 0
 251       0 zram0 50 0 400 0 60 0 480 0 0 0 0 0 0 0 0 0 0
";

const MOUNTS: &str = "/dev/sda3 / btrfs rw,seclabel,relatime,compress=zstd:1,ssd,discard=async,space_cache=v2,subvolid=256,subvol=/root 0 0
proc /proc proc rw,nosuid,nodev,noexec,relatime 0 0
/dev/sda3 /home btrfs rw,seclabel,relatime,compress=zstd:1,ssd,discard=async,space_cache=v2,subvolid=257,subvol=/home 0 0
/dev/sda2 /boot ext4 rw,seclabel,relatime 0 0
/dev/sda1 /boot/efi vfat rw,relatime 0 0
tmpfs /tmp tmpfs rw,nosuid,nodev 0 0
/dev/sdb1 /run/media/tincho/USB\\040DISK vfat rw,nosuid,nodev 0 0
/dev/nvme0n1p2 /mnt/datos ext4 rw,relatime 0 0
";

const PID_STATS: &str = "11742 (cat) R 11293 11293 11293 0 -1 4194304 118 0 0 0 7 3 0 0 20 0 1 0 141716 236335104 474 18446744073709551615 94216996040704 94216996061985 140728589727520 0 0 0 0 0 0 0 0 0 17 5 0 0 0 0 0
4321 (tmux: server) S 1 4321 4321 0 -1 4194368 2000 0 0 0 1500 300 0 0 20 0 1 0 5000 30000000 2500 18446744073709551615 0 0 0 0 0 0 0 0 0 0 0 0 17 3 0 0 0 0 0
777 (a) b)) R 1 777 777 0 -1 0 0 0 0 0 10 5 0 0 20 0 1 0 100 1000 42 18446744073709551615 0 0 0 0 0 0 0 0 0 0 0 0 17 1 0 0 0 0 0
";

const PCI_IDS: &str = "#
#	List of PCI ID's
#
# Syntax:
# vendor  vendor_name
#	device  device_name				<-- single tab
#		subvendor subdevice  subsystem_name	<-- two tabs
1002  Advanced Micro Devices, Inc. [AMD/ATI]
	73ff  Navi 23 [Radeon RX 6600/6600 XT/6600M]
		1458 2407  Radeon RX 6600 Eagle
8086  Intel Corporation
	9bc8  CometLake-S GT2 [UHD Graphics 630]
10de  NVIDIA Corporation
	2487  GA104 [GeForce RTX 3060]
";

// cpu

#[test]
fn parse_stat_corta_en_la_primera_linea_no_cpu() {
    let ticks = parse_stat(STAT_A);
    // agregado + 3 núcleos, sin `intr` ni `ctxt`
    assert_eq!(ticks.len(), 4);
}

#[test]
fn parse_stat_calcula_active_y_total() {
    let ticks = parse_stat(STAT_A);
    // user+nice+system+irq+softirq
    assert_eq!(ticks[0].active, 86_355_484);
    // active + idle + iowait
    assert_eq!(ticks[0].total, 483_241_463);
}

#[test]
fn parse_stat_segunda_muestra() {
    let a = parse_stat(STAT_A);
    let b = parse_stat(STAT_B);
    assert_eq!(b[0].active - a[0].active, 25);
    assert_eq!(b[0].total - a[0].total, 100);
    assert_eq!(b[3].active - a[3].active, 100);
}

#[test]
fn parse_stat_salta_lineas_cortas_y_rechaza_desbordes() {
    assert_eq!(parse_stat("cpu 1 2 3\ncpu0 1 2 3 4 5 6 7\n").len(), 1);
    assert_eq!(parse_stat("cpu0 1 2 x 4 5 6 7\n")[0].active, 1 + 2 + 6 + 7);
    assert!(parse_stat_checked("cpu 18446744073709551615 1 0 0 0 0 0\n").is_none());
    assert_eq!(parse_stat("").len(), 0);
}

// cpuinfo

#[test]
fn uptime_toma_los_segundos_enteros() {
    assert_eq!(parse_uptime("1417.16 14830.28\n"), 1417);
    assert_eq!(parse_uptime(""), 0);
}

#[test]
fn uptime_sin_numero_es_cero() {
    assert_eq!(parse_uptime("-3.5 1"), 0);
    assert_eq!(parse_uptime("abc 1"), 0);
    assert_eq!(parse_uptime("  42. 1"), 42);
    assert_eq!(parse_uptime("99999999999999999999999.5"), u64::MAX);
}

#[test]
fn uptime_lee_lo_que_lee_un_f64() {
    // Each value is what `str::parse::<f64>` and a cast to `u64` give.
    for (raw, want) in [
        ("1e3", 1000),
        ("1.5E2", 150),
        ("12.34e1", 123),
        ("1e-1", 0),
        (".5", 0),
        ("5.", 5),
        ("+7", 7),
        ("-0.0", 0),
        ("0e99999", 0),
        ("1e400", u64::MAX),
        ("inf", u64::MAX),
        ("Infinity", u64::MAX),
        ("-inf", 0),
        ("NaN", 0),
        ("infinit", 0),
        ("1e", 0),
        ("e5", 0),
        ("1e+2", 100),
    ] {
        assert_eq!(parse_uptime(raw), want, "{raw}");
        let float = raw.parse::<f64>().map(|v| v as u64).unwrap_or(0);
        assert_eq!(float, want, "{raw}");
    }
}

// disk

#[test]
fn reconoce_discos_enteros_como_el_regex_del_qml() {
    for name in ["sda", "sdab", "vda", "xvda", "hdc", "nvme0n1", "nvme12n3", "mmcblk0", "md127"] {
        assert!(is_whole_disk(name), "{name} es disco entero");
    }
}

#[test]
fn descarta_particiones_y_dispositivos_virtuales() {
    for name in ["sda1", "nvme0n1p1", "mmcblk0p1", "dm-0", "zram0", "loop0", "sr0", "sd", "nvme0"] {
        assert!(!is_whole_disk(name), "{name} no es disco entero");
    }
}

#[test]
fn suma_sectores_de_discos_enteros_en_bytes() {
    // sda + nvme0n1, sectores de 512 bytes.
    assert_eq!(parse_diskstats(DISKSTATS), (6_299_484_160, 3_117_011_968));
}

#[test]
fn diskstats_que_desborda_se_rechaza() {
    assert!(parse_diskstats_checked("8 0 sda 1 1 36028797018963968 1 1 1 1 1 1\n").is_none());
    assert_eq!(parse_diskstats_checked("8 0 sda 1 1 2 1 1 1 3 1 1\n"), Some((1024, 1536)));
}

#[test]
fn des_escapa_los_octales_de_mounts() {
    assert_eq!(unescape_mount("/run/media/tincho/USB\\040DISK"), "/run/media/tincho/USB DISK");
    assert_eq!(unescape_mount("/mnt/a\\134b"), "/mnt/a\\b");
    assert_eq!(unescape_mount("/sin/escapes"), "/sin/escapes");
}

#[test]
fn escapes_al_final_o_incompletos_quedan() {
    // Hace falta un byte más después de los tres dígitos.
    assert_eq!(unescape_mount("a\\040"), "a ");
    assert_eq!(unescape_mount("a\\04"), "a\\04");
    assert_eq!(unescape_mount("a\\08x"), "a\\08x");
    assert_eq!(unescape_mount("/mnt/caf\\303\\251"), "/mnt/café");
    assert_eq!(unescape_mount("/mnt/año"), "/mnt/año");
}

#[test]
fn filtra_montajes_como_el_parse_df_del_qml() {
    assert_eq!(
        parse_mounts(MOUNTS),
        vec![
            ("/dev/sda3".to_string(), "/".to_string()),
            ("/dev/sda3".to_string(), "/home".to_string()),
            ("/dev/sdb1".to_string(), "/run/media/tincho/USB DISK".to_string()),
            ("/dev/nvme0n1p2".to_string(), "/mnt/datos".to_string()),
        ]
    );
}

#[test]
fn montajes_repetidos_aparecen_una_vez() {
    let raw = "/dev/sda1 /mnt/x ext4 rw 0 0\n/dev/sda1 /mnt/x ext4 rw 0 0\n/dev/sda1\n";
    assert_eq!(parse_mounts(raw), vec![("/dev/sda1".to_string(), "/mnt/x".to_string())]);
}

#[test]
fn uso_como_df() {
    // 600 bloques usados de 900 disponibles para el usuario: df redondea para arriba.
    assert_eq!(usage_from(1000, 400, 300, 4096), (4_096_000, 2_457_600, 1_228_800, 67));
    assert_eq!(usage_from(0, 0, 0, 4096), (0, 0, 0, 0));
}

#[test]
fn uso_con_bloques_libres_de_mas() {
    // bfree > blocks: usado satura en cero.
    assert_eq!(usage_from(10, 20, 5, 2), (20, 0, 10, 0));
    assert_eq!(usage_from(10, 0, 0, 1), (10, 10, 0, 100));
}

#[test]
fn transporte_desde_la_ruta_de_sysfs() {
    let ata = "/sys/devices/pci0000:00/0000:00:17.0/ata6/host5/target5:0:0/5:0:0:0/block/sda";
    let usb = "/sys/devices/pci0000:00/0000:00:14.0/usb2/2-1/2-1:1.0/host6/target6:0:0/6:0:0:0/block/sdb";
    let virtio = "/sys/devices/pci0000:00/0000:00:04.0/virtio1/block/vda";
    assert_eq!(transport(ata, "sda"), Some("SATA"));
    assert_eq!(transport(usb, "sdb"), Some("USB"));
    assert_eq!(transport(virtio, "vda"), Some("VIRTIO"));
    assert_eq!(transport("/sys/devices/pci0000:00/0000:01:00.0/nvme/nvme0/nvme0n1", "nvme0n1"), Some("NVME"));
    assert_eq!(transport("/sys/devices/virtual/block/xyz", "xyz"), None);
    assert_eq!(transport("/x/usb1", "mmcblk0"), Some("MMC"));
}

#[test]
fn uso_del_disco_sale_de_la_primera_particion_montada() {
    let u = |device: &str, mount: &str| MountUsage {
        device: device.to_string(),
        mount: mount.to_string(),
        size: 1,
        used: 1,
        avail: 0,
        percent: 100,
    };
    let usages = vec![u("/dev/sda3", "/"), u("/dev/sda3", "/home"), u("/dev/nvme0n1p2", "/mnt/datos")];
    let parts = |v: &[&str]| v.iter().map(|s| s.to_string()).collect::<Vec<_>>();
    assert_eq!(usage_for("sda", &parts(&["sda1", "sda2", "sda3"]), &usages).map(|x| x.mount.as_str()), Some("/"));
    assert_eq!(usage_for("nvme0n1", &parts(&["nvme0n1p1", "nvme0n1p2"]), &usages).map(|x| x.mount.as_str()), Some("/mnt/datos"));
    assert_eq!(usage_for("sdb", &parts(&["sdb1"]), &usages), None);
}

// gpu

#[test]
fn pci_name_arma_fabricante_y_dispositivo() {
    assert_eq!(
        pci_name(PCI_IDS, 0x1002, 0x73ff).as_deref(),
        Some("Advanced Micro Devices, Inc. [AMD/ATI] Navi 23 [Radeon RX 6600/6600 XT/6600M]")
    );
    assert_eq!(
        pci_name(PCI_IDS, 0x8086, 0x9bc8).as_deref(),
        Some("Intel Corporation CometLake-S GT2 [UHD Graphics 630]")
    );
}

#[test]
fn pci_name_no_confunde_subsistemas_ni_inventa() {
    assert_eq!(pci_name(PCI_IDS, 0x1002, 0x1458), None);
    assert_eq!(pci_name(PCI_IDS, 0x10de, 0x2503), None);
}

#[test]
fn ids_hexadecimales_de_sysfs() {
    assert_eq!(parse_hex_id("0x1002\n"), Some(0x1002));
    assert_eq!(parse_hex_id("73FF"), Some(0x73ff));
    assert_eq!(parse_hex_id("0x0x10de"), Some(0x10de));
    assert_eq!(parse_hex_id("0x10000"), None);
    assert_eq!(parse_hex_id("0x"), None);
}

#[test]
fn campos_del_csv_de_nvidia_smi() {
    assert_eq!(
        csv_fields("NVIDIA T400, [N/A], 40,"),
        vec!["NVIDIA T400".to_string(), "[N/A]".to_string(), "40".to_string(), "".to_string()]
    );
}

// history

#[test]
fn arranca_vacio() {
    assert_eq!(History::<f32>::default().points().len(), 0);
}

#[test]
fn conserva_el_orden_de_llegada() {
    let mut h = History::default();
    h.push(0.1f32);
    h.push(0.2);
    assert_eq!(h.points(), vec![0.1, 0.2]);
}

#[test]
fn descarta_el_mas_viejo_pasada_la_capacidad() {
    let mut h = History::default();
    for i in 0..(CAPACITY + 10) {
        h.push(i as f32);
    }
    let p = h.points();
    assert_eq!(p.len(), CAPACITY);
    // el más viejo que sobrevive es el 10
    assert_eq!(p[0], 10.0);
    assert_eq!(p[CAPACITY - 1], (CAPACITY + 9) as f32);
}

#[test]
fn el_rotulo_sale_del_intervalo() {
    // 60 puntos × 2000 ms = 2 minutos
    assert_eq!(window_label(2000), "hace 2 min");
    // 60 × 500 ms = 30 s
    assert_eq!(window_label(500), "hace 30 s");
    assert_eq!(window_label(10_000), "hace 10 min");
}

// mod

#[test]
fn sin_panel_a_la_vista_no_corre_nada_caro() {
    assert_eq!(expensive_for(None), Expensive::default());
}

#[test]
fn cada_panel_prende_solo_lo_suyo() {
    assert_eq!(
        expensive_for(Some(Section::Cpu)),
        Expensive { cpu_detail: true, ..Expensive::default() }
    );
    assert_eq!(
        expensive_for(Some(Section::Ram)),
        Expensive { ram_detail: true, ..Expensive::default() }
    );
    assert_eq!(
        expensive_for(Some(Section::Storage)),
        Expensive { storage_detail: true, ..Expensive::default() }
    );
    assert_eq!(
        expensive_for(Some(Section::Gpu)),
        Expensive { gpu_detail: true, ..Expensive::default() }
    );
}

#[test]
fn red_y_temperaturas_no_tienen_parte_cara() {
    assert_eq!(expensive_for(Some(Section::Network)), Expensive::default());
    assert_eq!(expensive_for(Some(Section::Temps)), Expensive::default());
}

// net

#[test]
fn suma_todas_las_interfaces_menos_lo() {
    // wlp2s0 + tailscale0; enp1s0 y docker0 en cero; lo afuera.
    assert_eq!(parse_net_dev(NET_DEV_A), (149_128_038, 20_469_037));
}

#[test]
fn dos_lecturas_de_red() {
    let a = parse_net_dev(NET_DEV_A);
    let b = parse_net_dev(NET_DEV_B);
    assert_eq!((b.0 - a.0, b.1 - a.1), (2_048_000, 512));
    assert!(parse_net_dev_checked("a: 18446744073709551615 0 0 0 0 0 0 0 1\nb: 1 0 0 0 0 0 0 0 1\n").is_none());
}

// procs

fn stat(pid: u32, name: &str, ticks: u64, rss_pages: u64) -> ProcStat {
    ProcStat { pid, name: name.to_string(), ticks, rss_pages }
}

#[test]
fn parsea_utime_stime_y_rss() {
    let all: Vec<ProcStat> = PID_STATS.lines().filter_map(parse_pid_stat).collect();
    assert_eq!(all[0], stat(11742, "cat", 10, 474));
    assert_eq!(all[1], stat(4321, "tmux: server", 1800, 2500));
}

#[test]
fn el_nombre_llega_hasta_el_ultimo_parentesis() {
    let p = parse_pid_stat(PID_STATS.lines().nth(2).unwrap()).unwrap();
    assert_eq!(p, stat(777, "a) b)", 15, 42));
    assert_eq!(parse_pid_stat("basura"), None);
}

#[test]
fn lineas_de_stat_incompletas() {
    assert_eq!(parse_pid_stat("12 )x( R"), None);
    assert_eq!(parse_pid_stat("x (a) R 1"), None);
    let big = "1 (a) R 0 0 0 0 0 0 0 0 0 0 18446744073709551615 1 0 0 0 0 0 0 0 0 0";
    assert_eq!(parse_pid_stat_checked(big), None);
    assert_eq!(parse_pid_stat_checked("1 (a) R"), Some(None));
}

// temp

#[test]
fn numero_entre_prefijo_y_sufijo() {
    assert_eq!(index_between("hwmon12", "hwmon", ""), Some(12));
    assert_eq!(index_between("temp3_input", "temp", "_input"), Some(3));
    assert_eq!(index_between("temp3_label", "temp", "_input"), None);
    assert_eq!(index_between("card0-DP-1", "card", ""), None);
}

// format

#[test]
fn uptime_omite_las_unidades_en_cero() {
    assert_eq!(uptime(30), "0 minutos");
    assert_eq!(uptime(1417), "23 minutos");
    assert_eq!(uptime(90_061), "1 día, 1 hora, 1 minuto");
    assert_eq!(uptime(1_300_000), "2 semanas, 1 día, 1 hora, 6 minutos");
}

// detail

#[test]
fn el_primer_monitor_instalado() {
    assert_eq!(system_monitor_command(&[false, true, true, false]), Some("gnome-system-monitor"));
    assert_eq!(system_monitor_command(&[false, false, false, true]), Some("htop"));
    assert_eq!(system_monitor_command(&[false; 4]), None);
}

#[test]
fn cpu_instantanea_por_nucleo_y_sin_recien_nacidos() {
    let prev = HashMap::from([(1, 100), (2, 50)]);
    let now = vec![stat(1, "uno", 150, 0), stat(2, "dos", 50, 0), stat(3, "nuevo", 999, 0)];
    // 400 jiffies of aggregate over 4 cores: 100 per core.
    let top = top_cpu_ticks(&prev, &now, 400, 4);
    assert_eq!(top, vec![("uno".to_string(), 50), ("dos".to_string(), 0)]);
    let per_core = 400.0f32 / 4.0;
    let percents: Vec<f32> = top.iter().map(|(_, t)| *t as f32 / per_core * 100.0).collect();
    assert_eq!(percents, vec![50.0, 0.0]);
    assert!(top_cpu_ticks(&prev, &now, 0, 4).is_empty());
    assert!(top_cpu_ticks(&prev, &now, 400, 0).is_empty());
}

#[test]
fn memoria_por_rss_con_porcentaje_y_tope_de_cinco() {
    let now: Vec<ProcStat> = (1..=7).map(|i| stat(i, &format!("p{i}"), 0, u64::from(i) * 250)).collect();
    let top = top_mem_pages(&now);
    assert_eq!(top.len(), TOP);
    assert_eq!(top[0], ("p7".to_string(), 1750));
    let kib = (top[0].1 * 4096) as f64 / 1024.0;
    assert_eq!(kib, 7000.0);
    assert_eq!((kib / 1_000_000.0 * 100.0) as f32, 0.7);
    assert_eq!(top[4].0, "p3");
    // Kernel threads (RSS 0) are left out.
    assert!(top_mem_pages(&[stat(9, "kworker", 0, 0)]).is_empty());
}

#[test]
fn el_ranking_conserva_el_orden_entre_iguales() {
    let ranked = rank_by_key(vec![("a", 3), ("b", 5), ("c", 3), ("d", 9), ("e", 5)]);
    assert_eq!(ranked, vec![("d", 9), ("b", 5), ("e", 5), ("a", 3), ("c", 3)]);
    assert!(rank_by_key::<u8>(Vec::new()).is_empty());
}

#[test]
fn la_cpu_de_un_contador_que_retrocede_es_cero() {
    let prev = HashMap::from([(1, 500)]);
    let now = vec![stat(1, "reiniciado", 100, 0)];
    assert_eq!(top_cpu_ticks(&prev, &now, 100, 1), vec![("reiniciado".to_string(), 0)]);
}

#[test]
fn hex_color_lee_rrggbb() {
    assert_eq!(hex_rgb("#ff4444"), (0xff, 0x44, 0x44));
}

#[test]
fn un_color_que_no_se_lee_es_blanco() {
    assert_eq!(hex_rgb("#zz0000"), (0xff, 0xff, 0xff));
    assert_eq!(hex_rgb(""), (0xff, 0xff, 0xff));
    assert_eq!(hex_rgb("##00aaff"), (0x00, 0xaa, 0xff));
    assert_eq!(hex_rgb("22cc66"), (0x22, 0xcc, 0x66));
}

#[test]
fn filas_de_nvidia_smi_con_los_seis_campos() {
    let raw = "NVIDIA GeForce RTX 3060, 12, 810, 48, 1024, 12288\nNVIDIA T400, [N/A], [N/A], 40, 100, 2048\nbasura\n";
    let rows = nvidia_gpu_rows(raw);
    assert_eq!(rows.len(), 2);
    assert_eq!(rows[0], vec!["NVIDIA GeForce RTX 3060", "12", "810", "48", "1024", "12288"]);
    assert_eq!(rows[1][0], "NVIDIA T400");
    assert_eq!(rows[1][1], "[N/A]");
}

#[test]
fn procesos_de_nvidia_con_pid_y_nombre() {
    let raw = "4321, /usr/bin/steam, 512\n0, fantasma, 10\n77, , 5\n";
    assert_eq!(
        nvidia_app_fields(raw),
        vec![(4321, "/usr/bin/steam".to_string(), "512".to_string())]
    );
    assert!(nvidia_app_fields("x, y, 1\n12, solo\n").is_empty());
}

#[test]
fn nvidia_primero_y_sysfs_sin_repetir() {
    let pair = |id: &str, name: &str| (id.to_string(), name.to_string());
    let nvidia = vec![pair("nvidia0", "NVIDIA RTX")];
    let sysfs = vec![pair("card0", "AMD"), pair("card1", "NVIDIA RTX"), pair("card0", "Otra")];
    assert_eq!(sysfs_kept(&nvidia, &sysfs), vec![true, false, false]);
    assert_eq!(sysfs_kept(&Vec::new(), &sysfs), vec![true, true, false]);
}

#[test]
fn reloj_marcado_de_pp_dpm_sclk() {
    assert_eq!(sclk_text("0: 500Mhz\n1: 1200Mhz *\n2: 1600Mhz\n").as_deref(), Some("1200"));
    assert_eq!(sclk_text("0: 500Mhz\n"), None);
    assert_eq!(sclk_text("1: 300MHZMhz*").as_deref(), Some("300"));
    assert_eq!(sclk_text("1: 300MHZ mhz*").as_deref(), Some("300mhz"));
    assert_eq!(sclk_text("sin dos puntos *"), None);
}

#[test]
fn el_id_de_la_placa_es_el_slot_pci_o_la_placa() {
    assert_eq!(device_id(Some("0000:03:00.0"), "card0"), "0000:03:00.0");
    assert_eq!(device_id(Some("device"), "card0"), "card0");
    assert_eq!(device_id(None, "card1"), "card1");
}

#[test]
fn el_nombre_de_la_placa_sale_de_pci_ids_o_es_la_placa() {
    assert_eq!(
        device_name(Some("0x1002"), Some("0x73ff"), Some(PCI_IDS), "card0"),
        "Advanced Micro Devices, Inc. [AMD/ATI] Navi 23 [Radeon RX 6600/6600 XT/6600M]"
    );
    assert_eq!(device_name(Some("0x10de"), Some("0x2503"), Some(PCI_IDS), "card0"), "card0");
    assert_eq!(device_name(Some("basura"), Some("0x73ff"), Some(PCI_IDS), "card0"), "card0");
    assert_eq!(device_name(Some("0x1002"), Some("0x73ff"), None, "card2"), "card2");
    assert_eq!(device_name(None, Some("0x73ff"), Some(PCI_IDS), "card3"), "card3");
}

#[test]
fn pci_name_no_pasa_al_fabricante_siguiente() {
    // 9bc8 is an Intel device: the walk over AMD's devices stops at the next vendor.
    assert_eq!(pci_name(PCI_IDS, 0x1002, 0x9bc8), None);
    assert_eq!(
        pci_name(PCI_IDS, 0x10de, 0x2487).as_deref(),
        Some("NVIDIA Corporation GA104 [GeForce RTX 3060]")
    );
}
